use vstd::prelude::*;

verus! {

/// A path into a document: each segment is a map key, or, inside a sequence, a
/// non-negative decimal index. The empty path is the root.
#[derive(Debug)]
pub struct DataPath(pub Vec<String>);

impl View for DataPath {
    type V = Seq<Seq<char>>;

    open spec fn view(&self) -> Seq<Seq<char>> {
        Seq::new(self.0@.len(), |i: int| self.0@[i]@)
    }
}

/// A decimal digit.
pub open spec fn is_digit(c: char) -> bool {
    '0' <= c && c <= '9'
}

/// The number that a string of decimal digits spells.
pub open spec fn digits_value(s: Seq<char>) -> nat
    decreases s.len(),
{
    if s.len() == 0 {
        0
    } else {
        digits_value(s.drop_last()) * 10 + (s.last() as nat - '0' as nat) as nat
    }
}

/// The sequence index that a segment names: present when the segment is a non-empty
/// run of decimal digits.
pub open spec fn segment_index(s: Seq<char>) -> Option<nat> {
    if s.len() > 0 && forall|i: int| 0 <= i < s.len() ==> is_digit(#[trigger] s[i]) {
        Some(digits_value(s))
    } else {
        None
    }
}

/// Reads a segment as a sequence index. An index too large for `usize` comes back as
/// `usize::MAX`, which is past the end of every sequence.
pub fn parse_index(seg: &String) -> (r: Option<usize>)
    ensures
        match segment_index(seg@) {
            None => r is None,
            Some(n) => r is Some && (n < usize::MAX ==> r->0 == n) && (n >= usize::MAX ==> r->0
                == usize::MAX),
        },
{
    let s = seg.as_str();
    let n = s.unicode_len();
    if n == 0 {
        return None;
    }
    let mut acc: usize = 0;
    let mut i: usize = 0;
    while i < n
        invariant
            n == seg@.len(),
            s@ == seg@,
            i <= n,
            forall|j: int| 0 <= j < i ==> is_digit(#[trigger] seg@[j]),
            digits_value(seg@.subrange(0, i as int)) < usize::MAX ==> acc == digits_value(
                seg@.subrange(0, i as int),
            ),
            digits_value(seg@.subrange(0, i as int)) >= usize::MAX ==> acc == usize::MAX,
        decreases n - i,
    {
        let c = s.get_char(i);
        if !('0' <= c && c <= '9') {
            proof {
                assert(!is_digit(seg@[i as int]));
            }
            return None;
        }
        let d = (c as u32 - '0' as u32) as usize;
        let ghost prev = digits_value(seg@.subrange(0, i as int));
        proof {
            assert(seg@.subrange(0, i as int + 1).drop_last() =~= seg@.subrange(0, i as int));
            assert(digits_value(seg@.subrange(0, i as int + 1)) == prev * 10 + d);
        }
        if acc == usize::MAX || acc > (usize::MAX - d) / 10 {
            proof {
                if prev < usize::MAX {
                    assert(acc > (usize::MAX - d) / 10);
                    assert(prev * 10 + d >= usize::MAX) by (nonlinear_arith)
                        requires
                            prev == acc,
                            acc > (usize::MAX - d) / 10,
                            d <= 9,
                    ;
                }
                assert(prev * 10 + d >= usize::MAX) by (nonlinear_arith)
                    requires
                        prev >= usize::MAX || prev * 10 + d >= usize::MAX,
                ;
            }
            acc = usize::MAX;
        } else {
            proof {
                assert(acc * 10 + d <= usize::MAX) by (nonlinear_arith)
                    requires
                        acc <= (usize::MAX - d) / 10,
                        d <= 9,
                ;
            }
            acc = acc * 10 + d;
        }
        i = i + 1;
    }
    proof {
        assert(seg@.subrange(0, n as int) =~= seg@);
    }
    Some(acc)
}

/// What `serde_json` reads from a text as a JSON array of strings: the strings, or
/// `None` where the text is not such an array.
pub uninterp spec fn json_string_array(text: Seq<char>) -> Option<Seq<Seq<char>>>;

/// The text of each string.
pub open spec fn strings_view(v: Seq<String>) -> Seq<Seq<char>> {
    Seq::new(v.len(), |i: int| v[i]@)
}

/// How Rust's `Debug` writes a list of strings: `["a", "b"]`, each string quoted and
/// escaped.
pub uninterp spec fn strings_debug(v: Seq<Seq<char>>) -> Seq<char>;

/// Relies on `Debug` of `Vec<String>`: its text depends on the strings alone.
#[verifier::external_body]
pub(crate) fn debug_strings(v: &Vec<String>) -> (r: String)
    ensures
        r@ == strings_debug(strings_view(v@)),
{
    format!("{:?}", v)
}

/// The strings of `v` from `start` up to `end`.
pub(crate) fn strings_between(v: &Vec<String>, start: usize, end: usize) -> (r: Vec<String>)
    requires
        start <= end <= v@.len(),
    ensures
        strings_view(r@) == strings_view(v@).subrange(start as int, end as int),
{
    let mut out: Vec<String> = Vec::new();
    let mut i: usize = start;
    while i < end
        invariant
            start <= i <= end <= v@.len(),
            out@.len() == i - start,
            forall|j: int| 0 <= j < out@.len() ==> #[trigger] out@[j]@ == v@[start + j]@,
        decreases end - i,
    {
        out.push(v[i].clone());
        i = i + 1;
    }
    proof {
        assert(strings_view(out@) =~= strings_view(v@).subrange(start as int, end as int));
    }
    out
}

#[verifier::external_type_specification]
#[verifier::external_body]
pub struct ExJsonError(serde_json::Error);

/// Relies on `serde_json::from_str::<Vec<String>>`: reads JSON text as an array of
/// strings; the outcome depends on the text alone.
#[verifier::external_body]
fn read_json_string_array(text: &str) -> (r: Result<Vec<String>, serde_json::Error>)
    ensures
        match r {
            Ok(v) => json_string_array(text@) == Some(strings_view(v@)),
            Err(_) => json_string_array(text@) is None,
        },
{
    serde_json::from_str::<Vec<String>>(text)
}

/// Relies on `Display` of `serde_json::Error`: the message it writes.
#[verifier::external_body]
fn json_error_message(e: &serde_json::Error) -> String {
    e.to_string()
}

/// The segments of a dotted path: the text between dots, so `a.b` has two segments and
/// the empty text one empty segment.
pub open spec fn split_dots(s: Seq<char>) -> Seq<Seq<char>>
    decreases s.len(),
{
    if s.len() == 0 {
        seq![Seq::<char>::empty()]
    } else {
        let p = split_dots(s.drop_last());
        if s.last() == '.' {
            p.push(Seq::<char>::empty())
        } else {
            p.update(p.len() - 1, p.last().push(s.last()))
        }
    }
}

pub proof fn lemma_split_dots_nonempty(s: Seq<char>)
    ensures
        split_dots(s).len() >= 1,
    decreases s.len(),
{
    if s.len() > 0 {
        lemma_split_dots_nonempty(s.drop_last());
    }
}

/// The path that a text names: a JSON array of strings (`["a", "b"]`), a dotted path
/// after a leading dot (`.a.b`), or the empty text for the root. Any other text names
/// none.
pub open spec fn path_of_text(s: Seq<char>) -> Option<Seq<Seq<char>>> {
    if s.len() == 0 {
        Some(Seq::empty())
    } else if s[0] == '[' {
        json_string_array(s)
    } else if s[0] == '.' {
        Some(split_dots(s.drop_first()))
    } else {
        None
    }
}

/// The start of the message for a path text that is not a JSON array of strings; what
/// `serde_json` says follows it.
pub const JSON_PATH_ERROR: &'static str = "Error parsing path as JSON array of strings: ";

/// The message for a path text that starts with neither `.` nor `[`.
pub const NO_PATH_PREFIX: &'static str = "Paths must start with a [.]";

impl DataPath {
    /// Reads a path from its text (see `path_of_text`).
    pub fn parse(s: &str) -> (r: Result<DataPath, String>)
        ensures
            match r {
                Ok(p) => path_of_text(s@) == Some(p@),
                Err(e) => path_of_text(s@) is None && if s@.len() > 0 && s@[0] == '[' {
                    e@.len() >= JSON_PATH_ERROR@.len() && e@.subrange(0, JSON_PATH_ERROR@.len() as int)
                        == JSON_PATH_ERROR@
                } else {
                    e@ == NO_PATH_PREFIX@
                },
            },
    {
        let n = s.unicode_len();
        if n == 0 {
            let p = DataPath(Vec::new());
            proof {
                assert(p@ =~= Seq::<Seq<char>>::empty());
            }
            return Ok(p);
        }
        let first = s.get_char(0);
        if first == '[' {
            match read_json_string_array(s) {
                Ok(v) => {
                    let p = DataPath(v);
                    proof {
                        assert(p@ =~= strings_view(v@));
                    }
                    Ok(p)
                },
                Err(e) => {
                    let mut msg = String::from_str(JSON_PATH_ERROR);
                    let detail = json_error_message(&e);
                    msg.append(detail.as_str());
                    proof {
                        assert(msg@.subrange(0, JSON_PATH_ERROR@.len() as int) =~= JSON_PATH_ERROR@);
                    }
                    Err(msg)
                },
            }
        } else if first == '.' {
            let rest = s.substring_char(1, n);
            let m = rest.unicode_len();
            let ghost t = rest@;
            let mut segs: Vec<String> = Vec::new();
            let mut start: usize = 0;
            let mut i: usize = 0;
            proof {
                assert(t.subrange(0, 0) =~= Seq::<char>::empty());
            }
            while i < m
                invariant
                    m == t.len(),
                    t == rest@,
                    start <= i <= m,
                    segs@.len() + 1 == split_dots(t.subrange(0, i as int)).len(),
                    forall|j: int| 0 <= j < segs@.len() ==> #[trigger] segs@[j]@ == split_dots(t.subrange(0, i as int))[j],
                    split_dots(t.subrange(0, i as int)).last() == t.subrange(start as int, i as int),
                decreases m - i,
            {
                let c = rest.get_char(i);
                let ghost pre = t.subrange(0, i as int);
                proof {
                    assert(t.subrange(0, i + 1).drop_last() =~= pre);
                    lemma_split_dots_nonempty(pre);
                }
                if c == '.' {
                    segs.push(String::from_str(rest.substring_char(start, i)));
                    start = i + 1;
                    proof {
                        assert(t.subrange(start as int, i + 1) =~= Seq::<char>::empty());
                    }
                } else {
                    proof {
                        assert(t.subrange(start as int, i + 1) =~= t.subrange(start as int, i as int).push(c));
                    }
                }
                i = i + 1;
            }
            segs.push(String::from_str(rest.substring_char(start, m)));
            let p = DataPath(segs);
            proof {
                assert(t.subrange(0, m as int) =~= t);
                assert(s@.drop_first() =~= t);
                assert(p@ =~= split_dots(t));
            }
            Ok(p)
        } else {
            Err(String::from_str(NO_PATH_PREFIX))
        }
    }
}

} // verus!
