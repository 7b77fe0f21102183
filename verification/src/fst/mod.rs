pub mod alphabet;
pub mod backend;
pub mod lexicon;
pub mod machine;
pub mod minimize;
pub mod phonrule;
pub mod table;
pub mod inflection;
pub mod kernel;
pub mod serial;
pub mod laws;
