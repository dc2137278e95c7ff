//! The byte destination a file is written to.

use vstd::prelude::*;

verus! {

/// The failure of a sink to take what it was handed.
#[derive(Debug, Copy, Clone, PartialEq, Eq, Hash, Structural)]
pub struct SinkError;

/// Whether `after` is `before` with an initial part of `bytes` behind it:
/// with nothing, with some or with all of `bytes`.
pub open spec fn partly_appended(before: Seq<u8>, after: Seq<u8>, bytes: Seq<u8>) -> bool {
    &&& before.is_prefix_of(after)
    &&& after.skip(before.len() as int).is_prefix_of(bytes)
}

/// What was appended in steps was appended: if `written` is `before` with
/// `done` behind it, `after` is `written` with a part of `bytes` behind it,
/// and `attempted` begins with `done` and `bytes`, then `after` is `before`
/// with a part of `attempted` behind it.
pub proof fn lemma_partly_appended(
    before: Seq<u8>,
    written: Seq<u8>,
    after: Seq<u8>,
    bytes: Seq<u8>,
    attempted: Seq<u8>,
)
    requires
        before.is_prefix_of(written),
        partly_appended(written, after, bytes),
        (written.skip(before.len() as int) + bytes).is_prefix_of(attempted),
    ensures
        partly_appended(before, after, attempted),
{
    let done = written.skip(before.len() as int);
    let part = after.skip(written.len() as int);
    assert(after =~= written + part);
    assert(written =~= before + done);
    assert(after.skip(before.len() as int) =~= done + part);
    assert(before =~= after.subrange(0, before.len() as int));
    assert(done + part =~= attempted.subrange(0, (done + part).len() as int));
}

/// An append-only, fallible destination of bytes.
///
/// The model of a sink is the sequence of bytes it has accepted so far.
/// An implementation outside verified code keeps the default bodies of the
/// spec functions; nothing is then proved about it.
pub trait Sink {
    /// Every byte the sink has accepted, in the order of arrival.
    open spec fn written(&self) -> Seq<u8> {
        Seq::empty()
    }

    /// A reliable sink accepts every write and every flush.
    open spec fn reliable(&self) -> bool {
        false
    }

    /// Whether every byte accepted has reached its destination.
    open spec fn flushed(&self) -> bool {
        false
    }

    /// Appends all of `bytes`, or fails having appended a part of them.
    fn write_all(&mut self, bytes: &[u8]) -> (r: Result<(), SinkError>)
        ensures
            r is Ok ==> final(self).written() == old(self).written() + bytes@,
            r is Err ==> partly_appended(old(self).written(), final(self).written(), bytes@),
            final(self).written().len() <= u64::MAX,
            old(self).reliable() ==> r is Ok,
            final(self).reliable() == old(self).reliable(),
    ;

    /// Pushes buffered bytes to their destination; the accepted bytes stay
    /// as they are.
    fn flush(&mut self) -> (r: Result<(), SinkError>)
        ensures
            final(self).written() == old(self).written(),
            r is Ok ==> final(self).flushed(),
            old(self).reliable() ==> r is Ok,
            final(self).reliable() == old(self).reliable(),
    ;
}

/// A growable buffer in memory takes every write.
impl Sink for Vec<u8> {
    open spec fn written(&self) -> Seq<u8> {
        self@
    }

    open spec fn reliable(&self) -> bool {
        true
    }

    open spec fn flushed(&self) -> bool {
        true
    }

    fn write_all(&mut self, bytes: &[u8]) -> (r: Result<(), SinkError>) {
        self.extend_from_slice(bytes);
        assert(self@.len() == self.len());
        Ok(())
    }

    fn flush(&mut self) -> (r: Result<(), SinkError>) {
        Ok(())
    }
}

} // verus!
