//! A value that carries the written steps ("workings") that produced it.

use vstd::prelude::*;

verus! {

/// A value together with the notes of how it was worked out.
pub struct WorkingsMonad<T> {
    workings: Vec<String>,
    inner: T,
}

impl<T> WorkingsMonad<T> {
    /// The notes, oldest first.
    pub closed spec fn notes(self) -> Seq<String> {
        self.workings@
    }

    /// The value.
    pub closed spec fn value(self) -> T {
        self.inner
    }

    /// The value `v` with no notes.
    pub fn new(v: T) -> (r: Self)
        ensures
            r.value() == v,
            r.notes() == Seq::<String>::empty(),
    {
        Self { inner: v, workings: Vec::new() }
    }

    /// Feeds the value to `f`; the result keeps these notes followed by those
    /// of `f`'s result.
    pub fn and_then<B, F: FnOnce(T) -> WorkingsMonad<B>>(self, f: F) -> (r: WorkingsMonad<B>)
        requires
            f.requires((self.value(),)),
        ensures
            exists|v: WorkingsMonad<B>|
                f.ensures((self.value(),), v) && r.notes() == self.notes() + v.notes() && r.value()
                    == v.value(),
    {
        let v = f(self.inner);
        let ghost vv = v;
        let mut workings = self.workings;
        let mut more = v.workings;
        workings.append(&mut more);
        let r = WorkingsMonad { workings, inner: v.inner };
        assert(f.ensures((self.value(),), vv) && r.notes() == self.notes() + vv.notes()
            && r.value() == vv.value());
        r
    }

    /// Applies `f` to the value and keeps the notes.
    pub fn map<B, F: FnOnce(T) -> B>(self, f: F) -> (r: WorkingsMonad<B>)
        requires
            f.requires((self.value(),)),
        ensures
            f.ensures((self.value(),), r.value()),
            r.notes() == self.notes(),
    {
        WorkingsMonad { workings: self.workings, inner: f(self.inner) }
    }

    /// Appends the note `s`.
    pub fn add_workings(&mut self, s: String)
        ensures
            final(self).notes() == old(self).notes().push(s),
            final(self).value() == old(self).value(),
    {
        self.workings.push(s);
    }

    /// The same value with the note `s` appended.
    pub fn workings(self, s: String) -> (r: Self)
        ensures
            r.notes() == self.notes().push(s),
            r.value() == self.value(),
    {
        let mut this = self;
        this.add_workings(s);
        this
    }
}

impl<T> AsRef<T> for WorkingsMonad<T> {
    fn as_ref(&self) -> (r: &T)
        ensures
            *r == self.value(),
    {
        &self.inner
    }
}

impl<T> AsMut<T> for WorkingsMonad<T> {
    fn as_mut(&mut self) -> (r: &mut T)
        ensures
            *r == old(self).value(),
            final(self).value() == *final(r),
            final(self).notes() == old(self).notes(),
    {
        &mut self.inner
    }
}

impl<T: Default> Default for WorkingsMonad<T> {
    fn default() -> (r: Self)
        ensures
            r.notes() == Seq::<String>::empty(),
    {
        Self { workings: Vec::new(), inner: T::default() }
    }
}

} // verus!
