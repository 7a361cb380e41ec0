//! What is logged, and how a warning is written to the warnings file.

use vstd::prelude::*;
use vstd::string::*;

use crate::text::{chars_of, text_of};

verus! {

/// A crate name as it stands in log targets: hyphens as underscores.
pub open spec fn target_name(name: Seq<char>) -> Seq<char> {
    name.map_values(
        |c: char|
            if c == '-' {
                '_'
            } else {
                c
            },
    )
}

/// The prefix that the log targets of a crate have.
pub fn crate_prefix(name: &str) -> (r: String)
    ensures
        r@ == target_name(name@),
{
    let chars: Vec<char> = chars_of(name);
    let mut out = String::new();
    let mut i: usize = 0;
    proof {
        assert(target_name(name@).take(0) =~= Seq::<char>::empty());
    }
    while i < chars.len()
        invariant
            chars@ == name@,
            i <= chars@.len(),
            out@ == target_name(name@).take(i as int),
        decreases chars.len() - i,
    {
        let c: char = if chars[i] == '-' {
            '_'
        } else {
            chars[i]
        };
        out.push(c);
        proof {
            assert(target_name(name@).take(i + 1) =~= target_name(name@).take(i as int).push(c));
        }
        i += 1;
    }
    proof {
        assert(target_name(name@).take(i as int) =~= target_name(name@));
    }
    out
}

/// `prefix` stands at the start of `s`.
pub open spec fn has_prefix(s: Seq<char>, prefix: Seq<char>) -> bool {
    prefix.len() <= s.len() && s.take(prefix.len() as int) == prefix
}

/// Whether a record is logged at all: only records of this crate are.
pub fn is_own_target(target: &str, crate_prefix: &str) -> (r: bool)
    ensures
        r == has_prefix(target@, crate_prefix@),
{
    let t: Vec<char> = chars_of(target);
    let p: Vec<char> = chars_of(crate_prefix);
    if p.len() > t.len() {
        return false;
    }
    let mut i: usize = 0;
    while i < p.len()
        invariant
            t@ == target@,
            p@ == crate_prefix@,
            p@.len() <= t@.len(),
            i <= p@.len(),
            forall|j: int| 0 <= j < i ==> t@[j] == p@[j],
        decreases p.len() - i,
    {
        if t[i] != p[i] {
            proof {
                assert(target@.take(p@.len() as int)[i as int] != crate_prefix@[i as int]);
            }
            return false;
        }
        i += 1;
    }
    proof {
        assert(target@.take(p@.len() as int) =~= crate_prefix@);
    }
    true
}

/// The line that a warning gets in the warnings file.
pub fn warning_line(target: &str, message: &str) -> (r: String)
    ensures
        r@ == "[WARN] "@ + target@ + " - "@ + message@,
{
    let mut line: String = text_of("[WARN] ");
    line.append(target);
    line.append(" - ");
    line.append(message);
    line
}

/// A log target has an underscore where the crate name has a hyphen, and every other
/// character of it.
pub proof fn law_target_name(name: Seq<char>, i: int)
    ensures
        target_name(name).len() == name.len(),
        0 <= i < name.len() && name[i] == '-' ==> target_name(name)[i] == '_',
        0 <= i < name.len() && name[i] != '-' ==> target_name(name)[i] == name[i],
{
}

/// A text has a prefix exactly where it is the prefix with something behind it.
pub proof fn law_prefix(s: Seq<char>, prefix: Seq<char>)
    ensures
        has_prefix(s, prefix) <==> exists|rest: Seq<char>| s == #[trigger] (prefix + rest),
{
    if has_prefix(s, prefix) {
        assert(prefix + s.skip(prefix.len() as int) =~= s);
    }
    if exists|rest: Seq<char>| s == #[trigger] (prefix + rest) {
        let rest = choose|rest: Seq<char>| s == #[trigger] (prefix + rest);
        assert(s.take(prefix.len() as int) =~= prefix);
    }
}

} // verus!
