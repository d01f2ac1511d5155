//! Rule engines of the arcade board games: boards, move generation, move
//! application, terminal detection and static evaluation.
pub mod amazons;
pub mod baghchal;
pub mod bullscows;
pub mod capturego;
pub mod climb;
pub mod chomp;
pub mod clobber;
pub mod col;
pub mod connectfour;
pub mod dice;
pub mod difficulty;
pub mod domineering;
pub mod dotsboxes;
pub mod draughts;
pub mod euclid;
pub mod foxhounds;
pub mod frontline;
pub mod gale;
pub mod gridlib;
pub mod gridpack;
pub mod hex;
pub mod konane;
pub mod lenchoa;
pub mod mancala;
pub mod mutorere;
pub mod nim;
pub mod ninemorris;
pub mod nogo;
pub mod outcome;
pub mod oware;
pub mod pawnduel;
pub mod pig;
pub mod pinchfive;
pub mod prior;
pub mod quadline;
pub mod reversi;
pub mod rng;
pub mod text;
