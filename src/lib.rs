//! Infix arithmetic with variables: a tokenizer, an operator-precedence
//! planner that turns tokens into a postfix program, a variable store, and
//! the decision of what one line of an interactive session asks for.
pub mod lexer;
pub mod vars;
pub mod plan;
pub mod session;
