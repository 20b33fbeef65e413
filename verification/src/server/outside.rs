//! What a server needs from outside: the files of its tables, their sizes, and what is computed on
//! floating point numbers.
use vstd::prelude::*;

use crate::index::query;
use crate::storage::sstable::Reads;
use crate::storage::sstable;
use crate::types::{ErrorView, Result};
use crate::types;

verus! {

/// The functions that reach outside: reading a file of a table, the size of a table's files,
/// whether two doubles are close, and a size as people read it.
pub struct Outside<R, D, N, H> {
    pub read: R,
    pub disk: D,
    pub near: N,
    pub human: H,
}

/// What the functions may give: what reads of each table's files may give, what sizes its files may be
/// told to have, which doubles are close, and what texts a size may have.
pub struct World {
    pub reads: spec_fn(Seq<char>) -> Reads,
    pub disk: spec_fn(Seq<char>, u64) -> bool,
    pub near: spec_fn(u64, u64) -> Option<bool>,
    pub human: spec_fn(u64, Seq<char>) -> bool,
}

impl World {
    /// What reads of the files of one table may give.
    pub open spec fn reads_of(&self, table: Seq<char>) -> Reads {
        (self.reads)(table)
    }

    /// The files of a table may be told to have a size.
    pub open spec fn tells_size(&self, table: Seq<char>, size: u64) -> bool {
        (self.disk)(table, size)
    }

    /// A size may have a text.
    pub open spec fn tells_text(&self, size: u64, text: Seq<char>) -> bool {
        (self.human)(size, text)
    }
}

impl<
    R: Fn(&str, u64, u64, u64) -> Result<Vec<u8>>,
    D: Fn(&str) -> u64,
    N: Fn(u64, u64) -> Option<bool>,
    H: Fn(u64) -> String,
> Outside<R, D, N, H> {
    /// The functions can be called on all arguments.
    pub open spec fn usable(&self) -> bool {
        &&& forall|table: &str, id: u64, offset: u64, len: u64| #[trigger]
            call_requires(self.read, (table, id, offset, len))
        &&& forall|table: &str| #[trigger] call_requires(self.disk, (table,))
        &&& query::can_compare(self.near)
        &&& forall|size: u64| #[trigger] call_requires(self.human, (size,))
    }

    /// What the functions may give.
    pub open spec fn world(&self) -> World {
        World {
            reads: |table: Seq<char>|
                Reads {
                    may: |id: u64, offset: u64, len: u64, got: core::result::Result<Seq<u8>, ErrorView>|
                        exists|name: &str, r: Result<Vec<u8>>| #[trigger]
                            call_ensures(self.read, (name, id, offset, len), r) && name@ == table
                                && types::result_view(r) == got,
                },
            disk: |table: Seq<char>, size: u64|
                exists|name: &str| #[trigger]
                    call_ensures(self.disk, (name,), size) && name@ == table,
            near: query::answers(self.near),
            human: |size: u64, text: Seq<char>|
                exists|r: String| #[trigger] call_ensures(self.human, (size,), r) && r@ == text,
        }
    }

    /// A reader of one table's files gives what reads of them may give.
    pub(crate) proof fn lemma_reader<C: Fn(u64, u64, u64) -> Result<Vec<u8>>>(
        &self,
        reader: C,
        name: &str,
    )
        requires
            forall|id: u64, offset: u64, len: u64, r: Result<Vec<u8>>| #[trigger]
                call_ensures(reader, (id, offset, len), r) ==> call_ensures(
                    self.read,
                    (name, id, offset, len),
                    r,
                ),
        ensures
            sstable::within(sstable::outcomes(reader), self.world().reads_of(name@)),
    {
        let can = self.world().reads_of(name@);
        assert forall|
            id: u64,
            offset: u64,
            len: u64,
            got: core::result::Result<Seq<u8>, ErrorView>,
        | #[trigger] sstable::may_read(
            sstable::outcomes(reader),
            id,
            offset,
            len,
            got,
        ) implies sstable::may_read(can, id, offset, len, got) by {
            let r = choose|r: Result<Vec<u8>>| #[trigger]
                call_ensures(reader, (id, offset, len), r) && types::result_view(r) == got;
            assert(call_ensures(self.read, (name, id, offset, len), r));
        }
    }

    /// The size of a table's files.
    pub fn size_of(&self, name: &str) -> (r: u64)
        requires
            self.usable(),
        ensures
            self.world().tells_size(name@, r),
    {
        (self.disk)(name)
    }

    /// A size as people read it.
    pub fn text_of(&self, size: u64) -> (r: String)
        requires
            self.usable(),
        ensures
            self.world().tells_text(size, r@),
    {
        (self.human)(size)
    }
}

} // verus!
