pub mod bitset;
pub mod collection;
pub mod first_follow;
pub mod grammar;
pub mod items;
pub mod ordmap;
pub mod table;
pub mod this;

pub use crate::grammar::{Grammar, GrammarError, GrammarHelper, Prod, Production, Symbol};
pub use crate::items::{ItemSet, LR0Item};
pub use crate::ordmap::{IntoIter, Iter, OrdHashMap};
pub use crate::table::{Action, ParseTable, TableRow};
pub use crate::this::pgen_grammar;
