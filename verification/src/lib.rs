use vstd::prelude::*;

pub mod compile;
pub mod graph;
pub mod graphviz;
pub mod join;
pub mod laws;

use crate::graph::nview;

verus! {

/// Whether `p` is a prefix of `s`.
pub open spec fn spec_has_prefix(s: Seq<char>, p: Seq<char>) -> bool {
    p.len() <= s.len() && s.take(p.len() as int) == p
}

/// The position of the first colon at or after `i`, if any.
pub open spec fn spec_find_colon(s: Seq<char>, i: int) -> Option<int>
    decreases s.len() - i,
    when 0 <= i <= s.len()
{
    if i >= s.len() {
        None
    } else if s[i] == ':' {
        Some(i)
    } else {
        spec_find_colon(s, i + 1)
    }
}

/// Whether a query-file line survives loading: blank lines and comment
/// lines are dropped.
pub open spec fn spec_keep_line(s: Seq<char>) -> bool {
    &&& s.len() > 0
    &&& !spec_has_prefix(s, "#"@)
    &&& !spec_has_prefix(s, "--"@)
    &&& !spec_has_prefix(s, "/*"@)
}

/// What a kept line must look like: the `VIEW name:` and `QUERY name:`
/// shorthands carry a colon after the name. A shorthand line without one
/// cannot be rewritten.
pub open spec fn spec_line_ok(s: Seq<char>) -> bool {
    &&& spec_has_prefix(s, "VIEW"@) ==> (spec_find_colon(s, 0) is Some && spec_find_colon(
        s,
        0,
    ).unwrap() >= 5)
    &&& !spec_has_prefix(s, "VIEW"@) && spec_has_prefix(s, "QUERY"@) ==> (spec_find_colon(
        s,
        0,
    ) is Some && spec_find_colon(s, 0).unwrap() >= 6)
}

/// A kept line, rewritten: the `VIEW name: body` and `QUERY name: body`
/// shorthands become `CREATE VIEW name AS body`, and a line that ends in
/// neither a newline nor a semicolon gets a newline.
pub open spec fn spec_rewrite_line(s: Seq<char>) -> Seq<char>
    recommends
        spec_line_ok(s),
{
    let t = if spec_has_prefix(s, "VIEW"@) {
        let c = spec_find_colon(s, 0).unwrap();
        "CREATE VIEW "@ + s.subrange(5, c) + " AS"@ + s.skip(c + 1)
    } else if spec_has_prefix(s, "QUERY"@) {
        let c = spec_find_colon(s, 0).unwrap();
        "CREATE VIEW "@ + s.subrange(6, c) + " AS"@ + s.skip(c + 1)
    } else {
        s
    };
    if t.len() > 0 && (t.last() == '\n' || t.last() == ';') {
        t
    } else {
        t + "\n"@
    }
}

/// The query list a loaded file yields: comment and blank lines dropped,
/// every kept line rewritten.
pub open spec fn spec_prepare(lines: Seq<Seq<char>>) -> Seq<Seq<char>>
    decreases lines.len(),
{
    if lines.len() == 0 {
        Seq::empty()
    } else {
        let pre = spec_prepare(lines.drop_last());
        if spec_keep_line(lines.last()) {
            pre.push(spec_rewrite_line(lines.last()))
        } else {
            pre
        }
    }
}

/// Whether `p` is a prefix of `s`, character by character.
pub fn has_prefix(s: &str, p: &str) -> (r: bool)
    ensures
        r == spec_has_prefix(s@, p@),
{
    let sn = s.unicode_len();
    let pn = p.unicode_len();
    if pn > sn {
        return false;
    }
    let mut i: usize = 0;
    while i < pn
        invariant
            sn == s@.len(),
            pn == p@.len(),
            pn <= sn,
            0 <= i <= pn,
            forall|k: int| 0 <= k < i ==> s@[k] == p@[k],
        decreases pn - i,
    {
        if s.get_char(i) != p.get_char(i) {
            proof {
                assert(s@.take(pn as int)[i as int] != p@[i as int]);
            }
            return false;
        }
        i += 1;
    }
    proof {
        assert(s@.take(pn as int) =~= p@);
    }
    true
}

/// The first colon of a line, if any.
pub fn find_colon(s: &str) -> (r: Option<usize>)
    ensures
        match r {
            Some(k) => spec_find_colon(s@, 0) == Some(k as int) && k < s@.len(),
            None => spec_find_colon(s@, 0) is None,
        },
{
    let n = s.unicode_len();
    let mut i: usize = 0;
    while i < n
        invariant
            n == s@.len(),
            0 <= i <= n,
            spec_find_colon(s@, 0) == spec_find_colon(s@, i as int),
        decreases n - i,
    {
        if s.get_char(i) == ':' {
            return Some(i);
        }
        i += 1;
    }
    None
}

/// Rewrite one kept line of a query file.
fn rewrite_line(l: &String) -> (r: String)
    requires
        spec_line_ok(l@),
    ensures
        r@ == spec_rewrite_line(l@),
{
    let n = l.as_str().unicode_len();
    let is_view = has_prefix(l.as_str(), "VIEW");
    let is_query = !is_view && has_prefix(l.as_str(), "QUERY");
    let mut t: String;
    if is_view || is_query {
        let c = match find_colon(l.as_str()) {
            Some(c) => c,
            None => {
                proof {
                    assert(false);
                }
                vstd::pervasive::unreached()
            },
        };
        let start: usize = if is_view {
            5
        } else {
            6
        };
        t = "CREATE VIEW ".to_owned();
        t.append(l.as_str().substring_char(start, c));
        t.append(" AS");
        t.append(l.as_str().substring_char(c + 1, n));
        proof {
            assert(l@.skip(c as int + 1) =~= l@.subrange(c as int + 1, l@.len() as int));
        }
    } else {
        t = l.clone();
    }
    let tn = t.as_str().unicode_len();
    if tn > 0 {
        let last = t.as_str().get_char(tn - 1);
        if last == '\n' || last == ';' {
            return t;
        }
    }
    t.append("\n");
    t
}

/// Turn the raw lines of a query file into the statement list to parse:
/// drop blank and comment lines, expand the `VIEW name:` and `QUERY name:`
/// shorthands into CREATE VIEW statements, and close every remaining line
/// with a newline or semicolon.
pub fn prepare_queries(lines: &Vec<String>) -> (r: Vec<String>)
    requires
        forall|i: int|
            0 <= i < lines@.len() && spec_keep_line(#[trigger] lines@[i]@) ==> spec_line_ok(
                lines@[i]@,
            ),
    ensures
        nview(r@) == spec_prepare(nview(lines@)),
{
    let ghost lv = nview(lines@);
    let mut out: Vec<String> = Vec::new();
    let n = lines.len();
    let mut i: usize = 0;
    proof {
        assert(nview(out@) =~= Seq::<Seq<char>>::empty());
        assert(lv.take(0) =~= Seq::<Seq<char>>::empty());
    }
    while i < n
        invariant
            lv == nview(lines@),
            n == lines@.len(),
            forall|k: int|
                0 <= k < lines@.len() && spec_keep_line(#[trigger] lines@[k]@) ==> spec_line_ok(
                    lines@[k]@,
                ),
            0 <= i <= n,
            nview(out@) == spec_prepare(lv.take(i as int)),
        decreases n - i,
    {
        proof {
            assert(lv[i as int] == lines@[i as int]@);
            assert(lv.take(i as int + 1).drop_last() =~= lv.take(i as int));
            assert(lv.take(i as int + 1).last() == lv[i as int]);
        }
        let l = &lines[i];
        let keep = !l.as_str().is_empty() && !has_prefix(l.as_str(), "#") && !has_prefix(
            l.as_str(),
            "--",
        ) && !has_prefix(l.as_str(), "/*");
        if keep {
            let ghost pre = nview(out@);
            let rewritten = rewrite_line(l);
            let ghost rv = rewritten@;
            out.push(rewritten);
            proof {
                assert(nview(out@) =~= pre.push(rv));
            }
        }
        i += 1;
    }
    proof {
        assert(lv.take(n as int) =~= lv);
    }
    out
}

/// Which join-planning strategy and normalizations a compilation run uses.
///
/// The strategies are priority-ordered: `megajoin` wins over `permutations`,
/// which wins over `nonprefix`; when none of those is set the baseline
/// left-to-right fold is used. `overlap` globally enables reuse of existing
/// join nodes, and `sorted_names` sorts each FROM-list before planning.
#[derive(Clone, Copy)]
pub struct Optimizations {
    pub overlap: bool,
    pub permutations: bool,
    pub sorted_names: bool,
    pub nonprefix: bool,
    pub megajoin: bool,
}

impl Optimizations {
    /// The default configuration: permutation search with reuse enabled.
    pub fn new() -> (r: Self)
        ensures
            r.overlap,
            r.permutations,
            !r.sorted_names,
            !r.nonprefix,
            !r.megajoin,
    {
        Optimizations {
            overlap: true,
            permutations: true,
            sorted_names: false,
            nonprefix: false,
            megajoin: false,
        }
    }
}

} // verus!
