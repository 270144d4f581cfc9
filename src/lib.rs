//! A chat-room assistant for the daily progle word game: it reads game
//! announcements out of chat messages, keeps at most one recorded result per
//! player, day and mode, and answers queries on averages and on an external
//! leaderboard.

pub mod text;
pub mod grammar;
pub mod facts;
pub mod averages;
pub mod leaderboard;
pub mod router;
