//! What goes wrong, and where.

use vstd::prelude::*;

verus! {

#[derive(Clone, Debug, PartialEq, Eq)]
pub struct AppError {
    /// What was being done.
    pub context: String,
    pub message: String,
}

pub ghost struct ErrorView {
    pub context: Seq<char>,
    pub message: Seq<char>,
}

impl View for AppError {
    type V = ErrorView;

    open spec fn view(&self) -> ErrorView {
        ErrorView { context: self.context@, message: self.message@ }
    }
}

impl AppError {
    pub fn new(context: &str, message: String) -> (r: Self)
        ensures
            r@ == (ErrorView { context: context@, message: message@ }),
    {
        AppError { context: context.to_owned(), message }
    }
}

}
