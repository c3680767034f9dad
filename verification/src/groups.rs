//! Validation of kerning groups.
//!
//! A kerning group's name begins with `public.kern1.` (first side) or
//! `public.kern2.` (second side) and must go on after that prefix. A glyph
//! may appear in at most one group of each side.

use vstd::prelude::*;
use vstd::string::StrSliceExecFns;
use crate::error::GroupsValidationError;
use crate::util::str_eq;

verus! {

/// The prefix of a first-side kerning group name.
pub open spec fn kern1_prefix() -> Seq<char> {
    seq!['p', 'u', 'b', 'l', 'i', 'c', '.', 'k', 'e', 'r', 'n', '1', '.']
}

/// The prefix of a second-side kerning group name.
pub open spec fn kern2_prefix() -> Seq<char> {
    seq!['p', 'u', 'b', 'l', 'i', 'c', '.', 'k', 'e', 'r', 'n', '2', '.']
}

/// Whether a sequence starts with the given prefix.
pub open spec fn starts_with(s: Seq<char>, p: Seq<char>) -> bool {
    s.len() >= p.len() && s.subrange(0, p.len() as int) == p
}

/// Walks one group's glyphs: the first glyph already seen on this side is an
/// overlap; otherwise all are recorded as seen.
pub open spec fn glyphs_scan(
    glyphs: Seq<String>,
    seen: Set<Seq<char>>,
    gname: String,
) -> Result<Set<Seq<char>>, GroupsValidationError>
    decreases glyphs.len(),
{
    if glyphs.len() == 0 {
        Ok(seen)
    } else if seen.contains(glyphs[0]@) {
        Err(
            GroupsValidationError::OverlappingKerningGroups {
                glyph_name: glyphs[0],
                group_name: gname,
            },
        )
    } else {
        glyphs_scan(
            glyphs.subrange(1, glyphs.len() as int),
            seen.insert(glyphs[0]@),
            gname,
        )
    }
}

/// Walks the groups in order, keeping the glyphs seen on each side.
pub open spec fn groups_scan(
    gs: Seq<(String, Vec<String>)>,
    seen1: Set<Seq<char>>,
    seen2: Set<Seq<char>>,
) -> Result<(), GroupsValidationError>
    decreases gs.len(),
{
    if gs.len() == 0 {
        Ok(())
    } else {
        let name = gs[0].0@;
        let rest = gs.subrange(1, gs.len() as int);
        if starts_with(name, kern1_prefix()) {
            if name.len() == kern1_prefix().len() {
                Err(GroupsValidationError::InvalidName)
            } else {
                match glyphs_scan(gs[0].1@, seen1, gs[0].0) {
                    Err(e) => Err(e),
                    Ok(s1) => groups_scan(rest, s1, seen2),
                }
            }
        } else if starts_with(name, kern2_prefix()) {
            if name.len() == kern2_prefix().len() {
                Err(GroupsValidationError::InvalidName)
            } else {
                match glyphs_scan(gs[0].1@, seen2, gs[0].0) {
                    Err(e) => Err(e),
                    Ok(s2) => groups_scan(rest, seen1, s2),
                }
            }
        } else {
            groups_scan(rest, seen1, seen2)
        }
    }
}

/// The verdict on a whole set of groups.
pub open spec fn spec_validate_groups(gs: Seq<(String, Vec<String>)>) -> Result<
    (),
    GroupsValidationError,
> {
    groups_scan(gs, Set::empty(), Set::empty())
}

/// Whether the string starts with the thirteen characters of a kerning
/// prefix, given as an array.
fn has_prefix(s: &str, p: &[char; 13]) -> (r: bool)
    ensures
        r == starts_with(s@, p@),
{
    let n = s.unicode_len();
    if n < 13 {
        return false;
    }
    let mut i: usize = 0;
    while i < 13
        invariant
            i <= 13,
            n == s@.len(),
            n >= 13,
            forall|j: int| 0 <= j < i ==> s@[j] == p@[j],
        decreases 13 - i,
    {
        if s.get_char(i) != p[i] {
            proof {
                assert(s@.subrange(0, 13)[i as int] == s@[i as int]);
            }
            return false;
        }
        i += 1;
    }
    proof {
        assert(s@.subrange(0, 13) =~= p@);
    }
    true
}

/// Whether one of the seen glyph names equals the given one.
fn seen_contains(seen: &Vec<String>, s: &str) -> (r: bool)
    ensures
        r == exists|i: int| 0 <= i < seen@.len() && seen@[i]@ == s@,
{
    let n = seen.len();
    let mut i: usize = 0;
    while i < n
        invariant
            i <= n,
            n == seen@.len(),
            forall|j: int| 0 <= j < i ==> seen@[j]@ != s@,
        decreases n - i,
    {
        if str_eq(seen[i].as_str(), s) {
            return true;
        }
        i += 1;
    }
    false
}

/// The set of names a list of seen glyph names stands for.
pub open spec fn seen_set(seen: Seq<String>) -> Set<Seq<char>> {
    Set::new(|k: Seq<char>| exists|i: int| 0 <= i < seen.len() && seen[i]@ == k)
}

/// Recording one more name adds exactly it to the set of seen names.
proof fn lemma_seen_push(pre: Seq<String>, s: String)
    ensures
        seen_set(pre.push(s)) =~= seen_set(pre).insert(s@),
{
    let t = pre.push(s);
    assert forall|k: Seq<char>|
        seen_set(t).contains(k) implies seen_set(pre).insert(s@).contains(k) by {
        let w = choose|w: int| 0 <= w < t.len() && t[w]@ == k;
        if w < pre.len() {
            assert(pre[w]@ == k);
        }
    }
    assert forall|k: Seq<char>|
        seen_set(pre).insert(s@).contains(k) implies seen_set(t).contains(k) by {
        if k == s@ {
            assert(t[pre.len() as int]@ == k);
        } else {
            let w = choose|w: int| 0 <= w < pre.len() && pre[w]@ == k;
            assert(t[w]@ == k);
        }
    }
}

/// Checks that every kerning group name goes on after its side prefix and
/// that no glyph appears in two groups of the same side. The first offending
/// glyph is reported with the later of the two groups holding it.
#[verifier::loop_isolation(false)]
pub fn validate_groups(groups: &Vec<(String, Vec<String>)>) -> (r: Result<
    (),
    GroupsValidationError,
>)
    ensures
        match r {
            Ok(()) => spec_validate_groups(groups@) is Ok,
            Err(e) => spec_validate_groups(groups@) == Err::<(), GroupsValidationError>(e),
        },
{
    let k1: [char; 13] = ['p', 'u', 'b', 'l', 'i', 'c', '.', 'k', 'e', 'r', 'n', '1', '.'];
    let k2: [char; 13] = ['p', 'u', 'b', 'l', 'i', 'c', '.', 'k', 'e', 'r', 'n', '2', '.'];
    let mut seen1: Vec<String> = Vec::new();
    let mut seen2: Vec<String> = Vec::new();
    let n = groups.len();
    proof {
        assert(groups@.subrange(0, n as int) =~= groups@);
        assert(seen_set(seen1@) =~= Set::<Seq<char>>::empty());
        assert(seen_set(seen2@) =~= Set::<Seq<char>>::empty());
    }
    let mut i: usize = 0;
    while i < n
        invariant
            i <= n,
            spec_validate_groups(groups@) == groups_scan(
                groups@.subrange(i as int, n as int),
                seen_set(seen1@),
                seen_set(seen2@),
            ),
        decreases n - i,
    {
        let ghost rem = groups@.subrange(i as int, n as int);
        proof {
            assert(rem[0] == groups@[i as int]);
            assert(rem.subrange(1, rem.len() as int) =~= groups@.subrange(i + 1, n as int));
        }
        let name = &groups[i].0;
        let glyphs = &groups[i].1;
        let side1 = has_prefix(name.as_str(), &k1);
        let side2 = if side1 {
            false
        } else {
            has_prefix(name.as_str(), &k2)
        };
        proof {
            assert(k1@ =~= kern1_prefix());
            assert(k2@ =~= kern2_prefix());
        }
        if side1 || side2 {
            if name.as_str().unicode_len() == 13 {
                return Err(GroupsValidationError::InvalidName);
            }
            let m = glyphs.len();
            let ghost s1_entry = seen1@;
            let ghost s2_entry = seen2@;
            proof {
                assert(glyphs@.subrange(0, m as int) =~= glyphs@);
            }
            let mut g: usize = 0;
            while g < m
                invariant
                    g <= m,
                    m == glyphs@.len(),
                    side1 ==> seen2@ == s2_entry && glyphs_scan(
                        glyphs@,
                        seen_set(s1_entry),
                        groups@[i as int].0,
                    ) == glyphs_scan(
                        glyphs@.subrange(g as int, m as int),
                        seen_set(seen1@),
                        groups@[i as int].0,
                    ),
                    !side1 ==> seen1@ == s1_entry && glyphs_scan(
                        glyphs@,
                        seen_set(s2_entry),
                        groups@[i as int].0,
                    ) == glyphs_scan(
                        glyphs@.subrange(g as int, m as int),
                        seen_set(seen2@),
                        groups@[i as int].0,
                    ),
                decreases m - g,
            {
                let ghost grem = glyphs@.subrange(g as int, m as int);
                proof {
                    assert(grem[0] == glyphs@[g as int]);
                    assert(grem.subrange(1, grem.len() as int) =~= glyphs@.subrange(
                        g + 1,
                        m as int,
                    ));
                }
                let glyph = &glyphs[g];
                let dup = if side1 {
                    seen_contains(&seen1, glyph.as_str())
                } else {
                    seen_contains(&seen2, glyph.as_str())
                };
                if dup {
                    proof {
                        if side1 {
                            assert(seen_set(seen1@).contains(glyphs@[g as int]@));
                        } else {
                            assert(seen_set(seen2@).contains(glyphs@[g as int]@));
                        }
                    }
                    return Err(
                        GroupsValidationError::OverlappingKerningGroups {
                            glyph_name: glyph.clone(),
                            group_name: name.clone(),
                        },
                    );
                }
                let ghost pre1 = seen1@;
                let ghost pre2 = seen2@;
                if side1 {
                    seen1.push(glyph.clone());
                } else {
                    seen2.push(glyph.clone());
                }
                proof {
                    if side1 {
                        lemma_seen_push(pre1, glyphs@[g as int]);
                        assert(seen1@ == pre1.push(glyphs@[g as int]));
                        assert(!seen_set(pre1).contains(glyphs@[g as int]@));
                    } else {
                        lemma_seen_push(pre2, glyphs@[g as int]);
                        assert(seen2@ == pre2.push(glyphs@[g as int]));
                        assert(!seen_set(pre2).contains(glyphs@[g as int]@));
                    }
                }
                g += 1;
            }
            proof {
                assert(glyphs@.subrange(m as int, m as int) =~= Seq::<String>::empty());
            }
        }
        i += 1;
    }
    proof {
        assert(groups@.subrange(n as int, n as int) =~= Seq::<(String, Vec<String>)>::empty());
    }
    Ok(())
}

} // verus!
