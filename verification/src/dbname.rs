use vstd::prelude::*;
use vstd::string::{StrSliceExecFns, StringExecFns};

verus! {

/// The last position of `c` in `s`; -1 if absent.
pub open spec fn spec_rfind(s: Seq<char>, c: char) -> int
    decreases s.len(),
{
    if s.len() == 0 {
        -1
    } else if s.last() == c {
        s.len() - 1
    } else {
        spec_rfind(s.drop_last(), c)
    }
}

/// The file stem of a path: the part after the last `/`, up to (not
/// including) its last `.` when one occurs past the first character.
pub open spec fn stem_of(s: Seq<char>) -> Seq<char> {
    let base = s.subrange(spec_rfind(s, '/') + 1, s.len() as int);
    let d = spec_rfind(base, '.');
    if d > 0 {
        base.take(d)
    } else {
        base
    }
}

/// A found position lies within the text and carries the character.
proof fn lemma_rfind_in_range(s: Seq<char>, c: char)
    requires
        spec_rfind(s, c) >= 0,
    ensures
        spec_rfind(s, c) < s.len(),
    decreases s.len(),
{
    if s.len() > 0 && s.last() != c {
        lemma_rfind_in_range(s.drop_last(), c);
    }
}

/// The search result is never below -1.
proof fn lemma_rfind_lb(s: Seq<char>, c: char)
    ensures
        spec_rfind(s, c) >= -1,
    decreases s.len(),
{
    if s.len() > 0 && s.last() != c {
        lemma_rfind_lb(s.drop_last(), c);
    }
}

/// Finds the last position of `c` in `s`.
fn rfind_char(s: &str, c: char) -> (r: Option<usize>)
    ensures
        (match r {
            Some(i) => i as int == spec_rfind(s@, c) && i < s@.len(),
            None => spec_rfind(s@, c) < 0,
        }),
{
    let n = s.unicode_len();
    let mut i: usize = 0;
    let mut found: Option<usize> = None;
    while i < n
        invariant
            n == s@.len(),
            0 <= i <= n,
            (match found {
                Some(p) => p as int == spec_rfind(s@.take(i as int), c) && p < i,
                None => spec_rfind(s@.take(i as int), c) < 0,
            }),
        decreases n - i,
    {
        proof {
            assert(s@.take(i as int + 1).drop_last() =~= s@.take(i as int));
            assert(s@.take(i as int + 1).last() == s@[i as int]);
        }
        if s.get_char(i) == c {
            found = Some(i);
        }
        i += 1;
    }
    proof {
        assert(s@.take(n as int) =~= s@);
    }
    found
}

/// The name of the database file derived from a heap snapshot path: the
/// path's file stem with the extension `.db3`, in the working directory.
pub fn assoc_db_name(heap_file: &str) -> (r: String)
    ensures
        r@ == stem_of(heap_file@) + ".db3"@,
{
    let n = heap_file.unicode_len();
    let b0 = match rfind_char(heap_file, '/') {
        Some(i) => i + 1,
        None => 0,
    };
    proof {
        lemma_rfind_lb(heap_file@, '/');
    }
    let base = heap_file.substring_char(b0, n);
    assert(base@ == heap_file@.subrange(spec_rfind(heap_file@, '/') + 1, heap_file@.len() as int));
    let stem = match rfind_char(base, '.') {
        Some(d) if d > 0 => {
            let st = base.substring_char(0, d);
            assert(st@ =~= base@.take(spec_rfind(base@, '.')));
            st
        },
        _ => {
            proof {
                if spec_rfind(base@, '.') > 0 {
                    lemma_rfind_in_range(base@, '.');
                }
            }
            base
        },
    };
    assert(stem@ == stem_of(heap_file@));
    let r = String::from_str(stem).concat(".db3");
    r
}

/// Decides whether ingestion must run: it is needed exactly when the
/// derived database file does not exist yet.
pub fn setup_db_if_needed(db_exists: bool) -> (r: bool)
    ensures
        r == !db_exists,
{
    !db_exists
}

} // verus!
