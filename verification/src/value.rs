//! What can stand in as text in a command.

use vstd::prelude::*;

use crate::text;

verus! {

/// Something that can stand in as the value of an option.
pub trait Value: Sized {
    /// The words it is written as.
    spec fn text(&self) -> Seq<char>;

    fn render(self) -> (r: String)
        ensures
            r@ == self.text(),
    ;
}

impl Value for &str {
    open spec fn text(&self) -> Seq<char> {
        (*self)@
    }

    fn render(self) -> (r: String) {
        self.to_owned()
    }
}

impl Value for String {
    open spec fn text(&self) -> Seq<char> {
        self@
    }

    fn render(self) -> (r: String) {
        self
    }
}

impl Value for &String {
    open spec fn text(&self) -> Seq<char> {
        (*self)@
    }

    fn render(self) -> (r: String) {
        self.clone()
    }
}

impl Value for char {
    open spec fn text(&self) -> Seq<char> {
        seq![*self]
    }

    fn render(self) -> (r: String) {
        let mut s = String::new();
        s.push(self);
        assert(s@ == seq![self]);
        s
    }
}

impl Value for bool {
    open spec fn text(&self) -> Seq<char> {
        if *self {
            "true"@
        } else {
            "false"@
        }
    }

    fn render(self) -> (r: String) {
        if self {
            "true".to_owned()
        } else {
            "false".to_owned()
        }
    }
}

impl Value for u8 {
    open spec fn text(&self) -> Seq<char> {
        text::decimal(*self as nat)
    }

    fn render(self) -> (r: String) {
        text::write_decimal(self as u128)
    }
}

impl Value for u16 {
    open spec fn text(&self) -> Seq<char> {
        text::decimal(*self as nat)
    }

    fn render(self) -> (r: String) {
        text::write_decimal(self as u128)
    }
}

impl Value for u32 {
    open spec fn text(&self) -> Seq<char> {
        text::decimal(*self as nat)
    }

    fn render(self) -> (r: String) {
        text::write_decimal(self as u128)
    }
}

impl Value for u64 {
    open spec fn text(&self) -> Seq<char> {
        text::decimal(*self as nat)
    }

    fn render(self) -> (r: String) {
        text::write_decimal(self as u128)
    }
}

impl Value for usize {
    open spec fn text(&self) -> Seq<char> {
        text::decimal(*self as nat)
    }

    fn render(self) -> (r: String) {
        text::write_decimal(self as u128)
    }
}

impl Value for i8 {
    open spec fn text(&self) -> Seq<char> {
        text::signed(*self as int)
    }

    fn render(self) -> (r: String) {
        text::write_signed(self as i64)
    }
}

impl Value for i16 {
    open spec fn text(&self) -> Seq<char> {
        text::signed(*self as int)
    }

    fn render(self) -> (r: String) {
        text::write_signed(self as i64)
    }
}

impl Value for i32 {
    open spec fn text(&self) -> Seq<char> {
        text::signed(*self as int)
    }

    fn render(self) -> (r: String) {
        text::write_signed(self as i64)
    }
}

impl Value for i64 {
    open spec fn text(&self) -> Seq<char> {
        text::signed(*self as int)
    }

    fn render(self) -> (r: String) {
        text::write_signed(self as i64)
    }
}

impl Value for isize {
    open spec fn text(&self) -> Seq<char> {
        text::signed(*self as int)
    }

    fn render(self) -> (r: String) {
        text::write_signed(self as i64)
    }
}

} // verus!
