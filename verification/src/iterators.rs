//! The concrete iterator values handed out by the graph's query surface:
//! each one owns the ids (or borrows the payloads) it will yield and steps
//! through them with an inherent `next`.

use crate::vertex_id::VertexId;
use std::collections::VecDeque;
use vstd::prelude::*;

verus! {

/// Generic vertex iterator: steps through a fixed list of vertex ids.
pub struct VertexIter {
    items: Vec<VertexId>,
    pos: usize,
}

impl VertexIter {
    /// The ids not yet yielded, front first.
    pub closed spec fn remaining(self) -> Seq<VertexId> {
        self.items@.skip(self.pos as int)
    }

    /// The cursor has not run past the end of the list.
    pub closed spec fn wf(self) -> bool {
        self.pos <= self.items@.len()
    }

    /// Wraps a list of ids, to be yielded front first.
    pub fn from_vec(items: Vec<VertexId>) -> (r: VertexIter)
        ensures
            r.wf(),
            r.remaining() == items@,
    {
        let r = VertexIter { items, pos: 0 };
        proof {
            assert(r.remaining() =~= r.items@);
        }
        r
    }

    /// Yields the next id, or `None` when all have been yielded.
    pub fn next(&mut self) -> (r: Option<VertexId>)
        requires
            old(self).wf(),
        ensures
            final(self).wf(),
            match r {
                Some(v) => old(self).remaining().len() > 0 && v == old(self).remaining()[0]
                    && final(self).remaining() == old(self).remaining().drop_first(),
                None => old(self).remaining().len() == 0 && final(self).remaining() == old(
                    self,
                ).remaining(),
            },
    {
        if self.pos < self.items.len() {
            let v = self.items[self.pos];
            self.pos = self.pos + 1;
            proof {
                assert(final(self).remaining() =~= old(self).remaining().drop_first());
            }
            Some(v)
        } else {
            None
        }
    }
}

/// Generic payload iterator: steps through borrowed payload values.
pub struct ValuesIter<'a, T> {
    items: Vec<&'a T>,
    pos: usize,
}

impl<'a, T> ValuesIter<'a, T> {
    /// The payload references not yet yielded, front first.
    pub closed spec fn remaining(self) -> Seq<&'a T> {
        self.items@.skip(self.pos as int)
    }

    /// The cursor has not run past the end of the list.
    pub closed spec fn wf(self) -> bool {
        self.pos <= self.items@.len()
    }

    /// Wraps a list of payload references, to be yielded front first.
    pub fn from_vec(items: Vec<&'a T>) -> (r: ValuesIter<'a, T>)
        ensures
            r.wf(),
            r.remaining() == items@,
    {
        let r = ValuesIter { items, pos: 0 };
        proof {
            assert(r.remaining() =~= r.items@);
        }
        r
    }

    /// Yields the next payload reference, or `None` when all have been
    /// yielded.
    pub fn next(&mut self) -> (r: Option<&'a T>)
        requires
            old(self).wf(),
        ensures
            final(self).wf(),
            match r {
                Some(t) => old(self).remaining().len() > 0 && t == old(self).remaining()[0]
                    && final(self).remaining() == old(self).remaining().drop_first(),
                None => old(self).remaining().len() == 0 && final(self).remaining() == old(
                    self,
                ).remaining(),
            },
    {
        if self.pos < self.items.len() {
            let v = self.items[self.pos];
            self.pos = self.pos + 1;
            proof {
                assert(final(self).remaining() =~= old(self).remaining().drop_first());
            }
            Some(v)
        } else {
            None
        }
    }
}

/// Iterator that owns its ids, taken from a double-ended queue.
pub struct OwningIterator {
    items: Vec<VertexId>,
    pos: usize,
}

impl OwningIterator {
    /// The ids not yet yielded, front first.
    pub closed spec fn remaining(self) -> Seq<VertexId> {
        self.items@.skip(self.pos as int)
    }

    /// The cursor has not run past the end of the list.
    pub closed spec fn wf(self) -> bool {
        self.pos <= self.items@.len()
    }

    /// Takes ownership of the queued ids, to be yielded front first.
    pub fn new(iterable: VecDeque<VertexId>) -> (r: OwningIterator)
        ensures
            r.wf(),
            r.remaining() == iterable@,
    {
        let ghost orig = iterable@;
        let mut iterable = iterable;
        let mut items: Vec<VertexId> = Vec::new();
        loop
            invariant
                items@ + iterable@ == orig,
            ensures
                iterable@.len() == 0,
                items@ + iterable@ == orig,
            decreases iterable@.len(),
        {
            match iterable.pop_front() {
                Some(v) => {
                    items.push(v);
                    proof {
                        assert(items@ + iterable@ =~= orig);
                    }
                },
                None => {
                    break ;
                },
            }
        }
        proof {
            assert(items@ =~= orig);
        }
        let r = OwningIterator { items, pos: 0 };
        proof {
            assert(r.remaining() =~= r.items@);
        }
        r
    }

    /// Yields the next id, or `None` when all have been yielded.
    pub fn next(&mut self) -> (r: Option<VertexId>)
        requires
            old(self).wf(),
        ensures
            final(self).wf(),
            match r {
                Some(v) => old(self).remaining().len() > 0 && v == old(self).remaining()[0]
                    && final(self).remaining() == old(self).remaining().drop_first(),
                None => old(self).remaining().len() == 0 && final(self).remaining() == old(
                    self,
                ).remaining(),
            },
    {
        if self.pos < self.items.len() {
            let v = self.items[self.pos];
            self.pos = self.pos + 1;
            proof {
                assert(final(self).remaining() =~= old(self).remaining().drop_first());
            }
            Some(v)
        } else {
            None
        }
    }
}

} // verus!
