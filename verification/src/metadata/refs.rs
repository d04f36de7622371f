//! Refs: where they point, how they are moved, and what a move answers with.

use vstd::prelude::*;
use vstd::utf8::encode_utf8;

use crate::object::ObjectId;
use crate::text::starts_with;

verus! {

/// A single ref update: move `refname` from `old_id` to `new_id`.
///
/// A null `old_id` means an unguarded create; a null `new_id` means delete.
#[derive(Debug)]
pub struct RefUpdate {
    /// The ref being updated, e.g. `refs/heads/main`.
    pub refname: String,
    /// The value `refname` must currently have, or the null id if no current
    /// value is required.
    pub old_id: ObjectId,
    /// The value to set `refname` to, or the null id to delete it.
    pub new_id: ObjectId,
}

impl RefUpdate {
    /// Whether this deletes the ref.
    pub open spec fn deletes(self) -> bool {
        self.new_id == (ObjectId { high: 0, low: 0 })
    }

    /// Whether this asks for no current value.
    pub open spec fn is_unguarded(self) -> bool {
        self.old_id == (ObjectId { high: 0, low: 0 })
    }

    /// Whether this deletes the ref.
    pub fn is_delete(&self) -> (deletes: bool)
        ensures
            deletes == self.deletes(),
    {
        self.new_id == ObjectId::null()
    }

    /// Whether this asks for no current value.
    pub fn is_create(&self) -> (unguarded: bool)
        ensures
            unguarded == self.is_unguarded(),
    {
        self.old_id == ObjectId::null()
    }
}

/// Why one [`RefUpdate`] was refused: the closed set of outcomes the ref store
/// itself can produce.
#[derive(Clone, Copy, Debug, PartialEq, Eq, Structural)]
pub enum RefUpdateRejection {
    /// `old_id` did not match the ref's current value.
    NonFastForward,
    /// `new_id` names an object this repository does not hold.
    ///
    /// A branch must point at a recorded commit.
    UnknownCommit,
    /// An unguarded create found the ref already existed.
    AlreadyExists,
    /// `refname` is not one git itself would accept.
    InvalidRefname,
}

impl RefUpdateRejection {
    /// What the rejection is called on the wire.
    pub open spec fn wire_text(self) -> Seq<char> {
        match self {
            RefUpdateRejection::NonFastForward => "non-fast-forward"@,
            RefUpdateRejection::UnknownCommit => "unknown commit"@,
            RefUpdateRejection::AlreadyExists => "already exists"@,
            RefUpdateRejection::InvalidRefname => "invalid refname"@,
        }
    }

    /// What the rejection is called on the wire.
    pub fn message(&self) -> (message: &'static str)
        ensures
            message@ == self.wire_text(),
    {
        match self {
            RefUpdateRejection::NonFastForward => "non-fast-forward",
            RefUpdateRejection::UnknownCommit => "unknown commit",
            RefUpdateRejection::AlreadyExists => "already exists",
            RefUpdateRejection::InvalidRefname => "invalid refname",
        }
    }
}

/// Outcome of applying one [`RefUpdate`]: landed, or rejected with a reason.
#[derive(Debug, PartialEq, Eq)]
pub struct RefUpdateResult {
    /// The ref that was updated or rejected.
    pub refname: String,
    /// Whether the update landed, or why it did not.
    pub result: Result<(), RefUpdateRejection>,
}

/// One ref that landed.
pub fn ok_result(refname: &str) -> (r: RefUpdateResult)
    ensures
        r.refname@ == refname@,
        r.result == Ok::<(), RefUpdateRejection>(()),
{
    RefUpdateResult { refname: refname.to_owned(), result: Ok(()) }
}

/// One ref that did not, and why.
pub fn reject_result(refname: &str, rejection: RefUpdateRejection) -> (r: RefUpdateResult)
    ensures
        r.refname@ == refname@,
        r.result == Err::<(), RefUpdateRejection>(rejection),
{
    RefUpdateResult { refname: refname.to_owned(), result: Err(rejection) }
}

/// Whether a byte is a hexadecimal digit of either case.
pub open spec fn is_hex_byte(b: u8) -> bool {
    0x30 <= b <= 0x39 || 0x41 <= b <= 0x46 || 0x61 <= b <= 0x66
}

/// Whether a ref's value names an object: forty hexadecimal digits.
pub open spec fn is_direct(value: Seq<char>) -> bool {
    let bytes = encode_utf8(value);
    bytes.len() == 40 && forall|i: int| 0 <= i < 40 ==> is_hex_byte(#[trigger] bytes[i])
}

/// Whether a ref's value is a direct ref (forty hexadecimal digits) rather than
/// symbolic (`ref: <name>`).
///
/// Checks the digits, not just the length: a symbolic target can be forty
/// characters long too.
pub fn is_direct_ref(value: &str) -> (direct: bool)
    ensures
        direct == is_direct(value@),
{
    let bytes = value.as_bytes();
    if bytes.len() != 40 {
        return false;
    }
    let mut i: usize = 0;
    while i < 40
        invariant
            i <= 40,
            bytes@ == encode_utf8(value@),
            bytes@.len() == 40,
            forall|j: int| 0 <= j < i ==> is_hex_byte(#[trigger] bytes@[j]),
        decreases 40 - i,
    {
        let b: u8 = bytes[i];
        let digit: bool = (0x30 <= b && b <= 0x39) || (0x41 <= b && b <= 0x46) || (0x61 <= b && b
            <= 0x66);
        if !digit {
            assert(!is_hex_byte(bytes@[i as int]));
            return false;
        }
        i = i + 1;
    }
    true
}

/// Whether `refname` is a branch (`refs/heads/*`).
pub open spec fn is_branch(refname: Seq<char>) -> bool {
    let prefix = "refs/heads/"@;
    prefix.len() <= refname.len() && refname.take(prefix.len() as int) == prefix
}

/// Whether `refname` is a branch (`refs/heads/*`): the one place that says so.
pub fn is_branch_refname(refname: &str) -> (branch: bool)
    ensures
        branch == is_branch(refname@),
{
    starts_with(refname, "refs/heads/")
}

} // verus!
