use crate::text::{str_precedes, text_lt};
use vstd::prelude::*;
use vstd::string::StringExecFns;

verus! {

/// What the store keeps under a key. A value stands for a text: it can be
/// written to the log as that text and read back from it.
pub trait Value: Sized {
    /// The text this value stands for.
    spec fn text(&self) -> Seq<char>;

    /// The value of the empty text.
    fn empty() -> (value: Self)
        ensures
            value.text() == Seq::<char>::empty(),
    ;

    /// The value that stands for `text`.
    fn from_text(text: &str) -> (value: Self)
        ensures
            value.text() == text@,
    ;

    /// The text of this value, as it is written to the log.
    fn to_text(&self) -> (text: String)
        ensures
            text@ == self.text(),
    ;

    /// Another value with the same text.
    fn duplicate(&self) -> (copy: Self)
        ensures
            copy.text() == self.text(),
    ;
}

/// What entries are found by. Keys are ordered as their texts are by
/// [`text_lt`], and two keys with the same text are the same key.
pub trait Key: Value {
    /// Whether this key comes strictly before `other`.
    fn precedes(&self, other: &Self) -> (r: bool)
        ensures
            r == text_lt(self.text(), other.text()),
    ;
}

impl Value for String {
    open spec fn text(&self) -> Seq<char> {
        self@
    }

    fn empty() -> (value: Self) {
        String::new()
    }

    fn from_text(text: &str) -> (value: Self) {
        String::from_str(text)
    }

    fn to_text(&self) -> (text: String) {
        self.clone()
    }

    fn duplicate(&self) -> (copy: Self) {
        self.clone()
    }
}

impl Key for String {
    fn precedes(&self, other: &Self) -> (r: bool) {
        str_precedes(self.as_str(), other.as_str())
    }
}

} // verus!
