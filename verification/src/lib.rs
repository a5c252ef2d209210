//! Verified solutions to a handful of classic CSES problems.

pub mod another_game;
pub mod finding_borders;
pub mod counting_rooms;
pub mod labyrinth;
pub mod max_heap;
pub mod subordinates;
pub mod decimal;
pub mod increasing_array;
pub mod hanoi;
