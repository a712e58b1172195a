//! Error kinds raised by the patch lifecycle engine.
use vstd::prelude::*;

verus! {

/// Classification of every failure the engine can report.
#[derive(Clone, Copy, Debug, PartialEq, Eq, Structural)]
pub enum ErrorKind {
    /// Patch matching failed, or a looked-up entry does not exist.
    NotFound,
    /// Kernel patch ELF malformed, status file corrupt, or an
    /// unrecognised control value.
    InvalidFormat,
    /// Artefact checksum does not match the stored checksum.
    ConsistencyFailure,
    /// Kernel version mismatch or missing target module.
    Incompatible,
    /// Another patch already covers one of this patch's symbols.
    Conflict,
    /// Deactivation would reveal another patch's override.
    Override,
    /// External loader or injection primitive returned nonzero.
    DriverFailure,
    /// A filesystem operation failed.
    Io,
    /// Requested target state unreachable from the current state.
    InvalidTransition,
}

/// A failure: its kind and a human-readable message.
#[derive(Debug)]
pub struct PatchError {
    pub kind: ErrorKind,
    pub message: String,
}

impl PatchError {
    /// Builds an error of the given kind with the given message.
    pub fn new(kind: ErrorKind, message: String) -> (r: PatchError)
        ensures
            r.kind == kind,
            r.message@ == message@,
    {
        PatchError { kind, message }
    }

    /// Builds an error of the given kind from a literal message.
    pub fn of(kind: ErrorKind, message: &str) -> (r: PatchError)
        ensures
            r.kind == kind,
            r.message@ == message@,
    {
        PatchError { kind, message: String::from_str(message) }
    }
}

/// A header followed by one `* Patch '<uuid>'` line per listed uuid.
pub open spec fn spec_uuid_list_message(header: Seq<char>, uuids: Seq<Seq<char>>) -> Seq<char>
    decreases uuids.len(),
{
    if uuids.len() == 0 {
        header
    } else {
        spec_uuid_list_message(header, uuids.drop_last()) + "\n* Patch '"@ + uuids.last() + "'"@
    }
}

/// Builds the message listing the offending patches under `header`.
pub fn uuid_list_message(header: &str, uuids: &Vec<String>) -> (r: String)
    ensures
        r@ == spec_uuid_list_message(header@, uuids.deep_view()),
{
    let mut r = String::from_str(header);
    let n = uuids.len();
    let mut i: usize = 0;
    while i < n
        invariant
            n == uuids@.len(),
            0 <= i <= n,
            r@ == spec_uuid_list_message(header@, uuids.deep_view().take(i as int)),
        decreases n - i,
    {
        proof {
            assert(uuids.deep_view().take(i as int + 1).drop_last() =~= uuids.deep_view().take(
                i as int,
            ));
            assert(uuids.deep_view().take(i as int + 1).last() == uuids@[i as int]@);
        }
        r.append("\n* Patch '");
        r.append(uuids[i].as_str());
        r.append("'");
        i = i + 1;
    }
    assert(uuids.deep_view().take(n as int) =~= uuids.deep_view());
    r
}

} // verus!
