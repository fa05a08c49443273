pub mod injectable_game;
