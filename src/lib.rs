pub mod bot;
pub mod circular_stack;
pub mod telegram;
