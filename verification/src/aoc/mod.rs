//! A puzzle about bags that hold other bags, given as one rule per line:
//! which colours of bag eventually hold a shiny gold bag, and how many bags
//! one shiny gold bag holds. Two readers of the rules: one that borrows the
//! colours from the text and one that copies them.

pub mod agree;
pub mod bags;
pub mod fast;
pub mod slow;
