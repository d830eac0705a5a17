//! A game's settings, and building a played game from them.
use vstd::prelude::*;
use crate::game::{Color, Game, Player, final_coloring, moves_of, turns_are_playable};
use crate::grid::{spiral_seq, board_fits_in_memory};
use crate::piece::Piece;

verus! {

/// Why settings do not make a game.
#[derive(Clone, Copy, Debug, PartialEq, Eq, Structural)]
pub enum ConfigError {
    /// The board has no cell.
    EmptyBoard,
    /// There is no player.
    NoPlayers,
}

impl ConfigError {
    /// A sentence describing the error.
    pub fn message(&self) -> (r: &'static str)
        ensures
            *self == ConfigError::EmptyBoard ==> r@ == "board size must be at least 1"@,
            *self == ConfigError::NoPlayers ==> r@ == "at least one player row is required"@,
    {
        match self {
            ConfigError::EmptyBoard => "board size must be at least 1",
            ConfigError::NoPlayers => "at least one player row is required",
        }
    }
}

/// The settings of a game: the number of board cells and the players, in turn order.
#[derive(Debug)]
pub struct AppConfig {
    pub board_size: usize,
    pub players: Vec<Player>,
}

impl Clone for AppConfig {
    fn clone(&self) -> (r: AppConfig)
        ensures
            r.board_size == self.board_size,
            colors_of(r.players@) == colors_of(self.players@),
            pieces_of(r.players@) == pieces_of(self.players@),
    {
        let players = self.players.clone();
        assert(colors_of(players@) =~= colors_of(self.players@));
        assert(pieces_of(players@) =~= pieces_of(self.players@));
        AppConfig { board_size: self.board_size, players }
    }
}

/// The colours of the players.
pub open spec fn colors_of(players: Seq<Player>) -> Seq<Color> {
    players.map_values(|p: Player| p.color)
}

/// The pieces of the players.
pub open spec fn pieces_of(players: Seq<Player>) -> Seq<(Seq<char>, Seq<(int, int)>)> {
    players.map_values(|p: Player| p.piece@)
}

/// The moves of the players' pieces.
pub open spec fn player_moves_of(players: Seq<Player>) -> Seq<Seq<(int, int)>> {
    players.map_values(|p: Player| p.piece@.1)
}

impl AppConfig {
    pub fn new(board_size: usize, players: Vec<Player>) -> (config: AppConfig)
        ensures
            config.board_size == board_size,
            config.players == players,
    {
        AppConfig { board_size, players }
    }

    /// The game these settings describe, played to its end.
    pub fn build_game(&self) -> (result: Result<Game, ConfigError>)
        requires
            self.board_size > 0 && self.players@.len() > 0 ==> {
                &&& board_fits_in_memory(self.board_size as nat)
                &&& turns_are_playable(
                    spiral_seq(self.board_size as nat),
                    player_moves_of(self.players@),
                    self.players@.len(),
                    self.players@.len(),
                )
            },
        ensures
            self.board_size == 0 ==> result == Err::<Game, ConfigError>(ConfigError::EmptyBoard),
            self.board_size > 0 && self.players@.len() == 0 ==> result == Err::<Game, ConfigError>(
                ConfigError::NoPlayers,
            ),
            self.board_size > 0 && self.players@.len() > 0 ==> (result matches Ok(game) && {
                &&& game.cells() == spiral_seq(self.board_size as nat)
                &&& game.player_colors() == colors_of(self.players@)
                &&& game.player_pieces() == pieces_of(self.players@)
                &&& game.claimed() == final_coloring(
                    spiral_seq(self.board_size as nat),
                    player_moves_of(self.players@),
                    self.players@.len(),
                )
            }),
    {
        if self.board_size == 0 {
            return Err(ConfigError::EmptyBoard);
        }
        if self.players.len() == 0 {
            return Err(ConfigError::NoPlayers);
        }
        let mut colors: Vec<Color> = Vec::new();
        let mut pieces: Vec<Piece> = Vec::new();
        let mut i: usize = 0;
        while i < self.players.len()
            invariant
                i <= self.players@.len(),
                colors@ == colors_of(self.players@).take(i as int),
                pieces@.len() == i,
                forall|k: int| 0 <= k < i ==> (#[trigger] pieces@[k])@ == self.players@[k].piece@,
            decreases self.players@.len() - i,
        {
            colors.push(self.players[i].color);
            pieces.push(self.players[i].piece.clone());
            assert(colors@ =~= colors_of(self.players@).take(i + 1));
            i += 1;
        }
        assert(colors@ =~= colors_of(self.players@));
        assert(moves_of(pieces@) =~= player_moves_of(self.players@));
        assert(pieces@.map_values(|p: Piece| p@) =~= pieces_of(self.players@));
        let mut game = Game::new(self.board_size, colors, pieces);
        assert(game.claimed().is_empty());
        game.play();
        Ok(game)
    }
}

} // verus!
