//! Smaller helpers.

use vstd::prelude::*;
use vstd::string::StrSliceExecFns;

use crate::config::Platform;

pub mod shmbuf_reader;

verus! {

/// `needle` stands somewhere in `s`.
pub open spec fn has_part(s: Seq<char>, needle: Seq<char>) -> bool {
    exists|i: int| #[trigger] part_at(s, needle, i)
}

/// `needle` stands at position `i` of `s`.
pub open spec fn part_at(s: Seq<char>, needle: Seq<char>, i: int) -> bool {
    0 <= i && i + needle.len() <= s.len() && s.subrange(i, i + needle.len()) == needle
}

fn contains_dev_shm(path: &str) -> (r: bool)
    ensures
        r == has_part(path@, "/dev/shm"@),
{
    proof {
        reveal_strlit("/dev/shm");
    }
    let ghost needle = "/dev/shm"@;
    assert(needle.len() == 8);
    let n: usize = path.unicode_len();
    let mut i: usize = 0;
    while i < n && n - i >= 8
        invariant
            n == path@.len(),
            i <= n,
            needle == "/dev/shm"@,
            needle.len() == 8,
            needle[0] == '/' && needle[1] == 'd' && needle[2] == 'e' && needle[3] == 'v',
            needle[4] == '/' && needle[5] == 's' && needle[6] == 'h' && needle[7] == 'm',
            forall|k: int| 0 <= k < i ==> !#[trigger] part_at(path@, needle, k),
        decreases n - i,
    {
        let here: bool = path.get_char(i) == '/' && path.get_char(i + 1) == 'd' && path.get_char(
            i + 2,
        ) == 'e' && path.get_char(i + 3) == 'v' && path.get_char(i + 4) == '/' && path.get_char(
            i + 5,
        ) == 's' && path.get_char(i + 6) == 'h' && path.get_char(i + 7) == 'm';
        let ghost part = path@.subrange(i as int, i + 8);
        if here {
            assert(part =~= needle);
            assert(part_at(path@, needle, i as int));
            return true;
        }
        assert(!part_at(path@, needle, i as int)) by {
            if part == needle {
                assert(forall|j: int| 0 <= j < 8 ==> part[j] == path@[i + j]);
            }
        }
        i = i + 1;
    }
    false
}

/// Whether shared memory of this size may be created, given how many bytes are free on `/dev/shm`
/// (`None` where that could not be found out).
///
/// This works for the `/dev/shm` partition of Linux only. Elsewhere it may always be created.
pub fn can_create_on_dev_shm_on(platform: Platform, size: u64, path: &str, free: Option<u64>) -> (r:
    bool)
    ensures
        r == (platform.linux && has_part(path@, "/dev/shm"@) ==> match free {
            Some(free) => free >= size,
            None => false,
        }),
{
    if platform.linux {
        if contains_dev_shm(path) {
            return match free {
                Some(free) => free >= size,
                None => false,
            };
        }
    }
    true
}

/// Whether shared memory of this size may be created on Linux, given how many bytes are free on
/// `/dev/shm` (`None` where that could not be found out).
pub fn can_create_on_dev_shm(size: u64, path: &str, free: Option<u64>) -> (r: bool)
    ensures
        r == (has_part(path@, "/dev/shm"@) ==> match free {
            Some(free) => free >= size,
            None => false,
        }),
{
    can_create_on_dev_shm_on(Platform::linux_amd64(), size, path, free)
}

/// On Linux a region under `/dev/shm` may be created exactly where enough is known to be free
/// there. Anywhere else, and on other machines, nothing is in the way.
pub proof fn law_region_needs_its_space(
    platform: Platform,
    size: u64,
    path: &str,
    free: Option<u64>,
    r: bool,
)
    requires
        call_ensures(can_create_on_dev_shm_on, (platform, size, path, free), r),
    ensures
        !platform.linux ==> r,
        path@.len() < 8 ==> r,
        forall|a: Seq<char>, b: Seq<char>|
            platform.linux && path@ == #[trigger] (a + "/dev/shm"@ + b) ==> (r <==> free is Some
                && free->0 >= size),
        (forall|i: int|
            0 <= i && i + 8 <= path@.len() ==> #[trigger] path@.subrange(i, i + 8) != "/dev/shm"@)
            ==> r,
{
    reveal_strlit("/dev/shm");
    let needle = "/dev/shm"@;
    assert(needle.len() == 8);
    assert forall|a: Seq<char>, b: Seq<char>|
        platform.linux && path@ == #[trigger] (a + "/dev/shm"@ + b) implies (r <==> free is Some
            && free->0 >= size) by {
        let i = a.len() as int;
        assert(path@.subrange(i, i + 8) =~= needle);
        assert(part_at(path@, needle, i));
    }
    if has_part(path@, needle) {
        let i = choose|i: int| #[trigger] part_at(path@, needle, i);
        assert(path@.subrange(i, i + 8) == needle);
    }
}

} // verus!
