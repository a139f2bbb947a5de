//! What compiled components hand to their formatting call: values that render
//! as text.

use vstd::prelude::*;

verus! {

/// A value that renders as text.
pub trait Render {
    spec fn rendered(&self) -> Seq<char>;

    fn render(&self) -> (r: String)
        ensures
            r@ == self.rendered(),
    ;
}

impl Render for () {
    open spec fn rendered(&self) -> Seq<char> {
        Seq::empty()
    }

    fn render(&self) -> (r: String) {
        String::new()
    }
}

impl Render for &str {
    open spec fn rendered(&self) -> Seq<char> {
        (*self)@
    }

    fn render(&self) -> (r: String) {
        (*self).to_owned()
    }
}

impl Render for String {
    open spec fn rendered(&self) -> Seq<char> {
        self@
    }

    fn render(&self) -> (r: String) {
        self.clone()
    }
}

impl<T: Render> Render for &T {
    open spec fn rendered(&self) -> Seq<char> {
        (**self).rendered()
    }

    fn render(&self) -> (r: String) {
        (**self).render()
    }
}

impl<T: Render> Render for Box<T> {
    open spec fn rendered(&self) -> Seq<char> {
        (**self).rendered()
    }

    fn render(&self) -> (r: String) {
        (**self).render()
    }
}

} // verus!
