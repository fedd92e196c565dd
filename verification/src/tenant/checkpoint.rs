//! Where checkpoints may be made.

use vstd::prelude::*;
use vstd::utf8::*;

use crate::error::{Fault, IoKind, QueueError};
use crate::paths;
use crate::tenant::TenantRegistry;
use crate::text;

verus! {

/// The refusal of a checkpoint: it is not allowed, for the given reason.
pub open spec fn denied(reason: Seq<char>) -> Fault {
    Fault::Io(IoKind::PermissionDenied, reason)
}

/// What a request for a checkpoint at a path is answered.
pub open spec fn checkpoint_verdict(path: Seq<char>, allowed_base: Seq<char>) -> Result<(), Fault> {
    if paths::goes_up(path) {
        Err(denied("checkpoint path must not contain '..'"@))
    } else if !paths::lies_under(path, allowed_base) {
        Err(denied("checkpoint path must be under configured checkpoint directory"@))
    } else {
        Ok(())
    }
}

impl TenantRegistry {
    /// Whether a checkpoint may be made at `path`: it must lie under
    /// `allowed_base` and must not go through a directory above.
    pub fn create_checkpoint(path: &str, allowed_base: &str) -> (r: Result<(), QueueError>)
        ensures
            match r {
                Ok(_) => checkpoint_verdict(path@, allowed_base@) is Ok,
                Err(e) => checkpoint_verdict(path@, allowed_base@) == Err::<(), Fault>(e@),
            },
    {
        if paths::has_parent_component(path) {
            return Err(
                QueueError::Io(
                    IoKind::PermissionDenied,
                    "checkpoint path must not contain '..'".to_owned(),
                ),
            );
        }
        if !paths::starts_with(path, allowed_base) {
            return Err(
                QueueError::Io(
                    IoKind::PermissionDenied,
                    "checkpoint path must be under configured checkpoint directory".to_owned(),
                ),
            );
        }
        Ok(())
    }
}

/// A checkpoint is made only inside the configured directory: the accepted path
/// is that directory followed by components none of which leads up again.
pub proof fn law_checkpoint_contained(path: Seq<char>, allowed_base: Seq<char>)
    requires
        checkpoint_verdict(path, allowed_base) is Ok,
    ensures
        ({
            let whole = paths::path_components(path);
            let base = paths::path_components(allowed_base);
            &&& whole == base + whole.skip(base.len() as int)
            &&& forall|i: int| 0 <= i < whole.len() ==> whole[i] != paths::above()
        }),
{
    let whole = paths::path_components(path);
    let base = paths::path_components(allowed_base);
    assert(whole =~= base + whole.skip(base.len() as int));
    assert forall|i: int| 0 <= i < whole.len() implies whole[i] != paths::above() by {
        assert(whole.contains(whole[i]));
    }
}

/// A directory directly inside the configured one is accepted, as long as the
/// configured one does not lead up itself.
pub proof fn law_checkpoint_child_accepted(allowed_base: Seq<char>, name: Seq<char>)
    requires
        encode_utf8(allowed_base).len() > 0,
        !paths::goes_up(allowed_base),
        encode_utf8(name).len() > 0,
        encode_utf8(name) != paths::here(),
        encode_utf8(name) != paths::above(),
        !encode_utf8(name).contains(paths::SLASH),
    ensures
        checkpoint_verdict(allowed_base + seq!['/'] + name, allowed_base) is Ok,
{
    let b = encode_utf8(allowed_base);
    let n = encode_utf8(name);
    let path = allowed_base + seq!['/'] + name;
    assert(encode_utf8(path) =~= b + seq![paths::SLASH] + n) by {
        text::lemma_encode_concat(allowed_base, seq!['/']);
        text::lemma_encode_concat(allowed_base + seq!['/'], name);
        assert(encode_utf8(seq!['/']) =~= seq![paths::SLASH]) by {
            lemma_slash();
        }
    }
    paths::lemma_parts_join(b, n, true);
    let base = paths::path_components(allowed_base);
    let whole = paths::path_components(path);
    assert(encode_utf8(path)[0] == b[0]);
    assert(whole =~= base.push(n));
    assert(whole.subrange(0, base.len() as int) =~= base);
    assert forall|i: int| 0 <= i < whole.len() implies whole[i] != paths::above() by {
        if i < base.len() {
            assert(base.contains(base[i]));
        }
    }
}

/// The UTF-8 form of a slash.
proof fn lemma_slash()
    ensures
        encode_utf8(seq!['/']) == seq![paths::SLASH],
{
    let slash = seq!['/'];
    is_ascii_chars_encode_utf8(slash);
    assert(slash[0] as u8 == encode_utf8(slash)[0]);
    assert(encode_utf8(slash) =~= seq![paths::SLASH]);
}

/// Which checkpoints are refused, and why: those whose path leads up, and of the others
/// those outside the configured directory. Either is not permitted.
pub proof fn law_checkpoint_refused(path: Seq<char>, allowed_base: Seq<char>)
    ensures
        ({
            let whole = paths::path_components(path);
            let base = paths::path_components(allowed_base);
            let up = whole.contains(seq![0x2eu8, 0x2eu8]);
            let verdict = checkpoint_verdict(path, allowed_base);
            &&& verdict is Ok <==> !up && base.is_prefix_of(whole)
            &&& up ==> (verdict matches Err(Fault::Io(kind, reason)) && kind
                == IoKind::PermissionDenied && reason == "checkpoint path must not contain '..'"@)
            &&& !up && !base.is_prefix_of(whole) ==> (verdict matches Err(Fault::Io(kind, reason))
                && kind == IoKind::PermissionDenied && reason
                == "checkpoint path must be under configured checkpoint directory"@)
        }),
{
}

} // verus!
