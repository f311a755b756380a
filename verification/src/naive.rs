use vstd::prelude::*;

use vstd::string::StrSliceExecFns;
use vstd::string::StringExecFns;

verus! {

/// The predecessor design, kept for callers that still use it: one text file
/// of `key::value` lines, appended on every put and scanned front to back on
/// every get, so the first matching line wins.
pub struct BawiDB {
    pub file_path: String,
}

/// The position of the leftmost `::` at or after `i`, or -1 when there is
/// none.
pub open spec fn first_sep_from(s: Seq<char>, i: int) -> int
    decreases s.len() - i,
{
    if i < 0 || i + 2 > s.len() {
        -1
    } else if s[i] == ':' && s[i + 1] == ':' {
        i
    } else {
        first_sep_from(s, i + 1)
    }
}

/// The key and value one line carries: the text before the leftmost `::`
/// and the text after it, provided the latter holds no further `::`.
pub open spec fn parse_line(s: Seq<char>) -> Option<(Seq<char>, Seq<char>)> {
    let i = first_sep_from(s, 0);
    if i < 0 {
        Option::None
    } else {
        let rest = s.skip(i + 2);
        if first_sep_from(rest, 0) >= 0 {
            Option::None
        } else {
            Option::Some((s.take(i), rest))
        }
    }
}

/// The value of the first line that parses and carries `key`.
pub open spec fn search_spec(lines: Seq<Seq<char>>, key: Seq<char>) -> Option<Seq<char>>
    decreases lines.len(),
{
    if lines.len() == 0 {
        Option::None
    } else {
        match parse_line(lines[0]) {
            Option::Some(p) => if p.0 == key {
                Option::Some(p.1)
            } else {
                search_spec(lines.skip(1), key)
            },
            Option::None => search_spec(lines.skip(1), key),
        }
    }
}

proof fn lemma_sep_props(s: Seq<char>, i: int)
    requires
        0 <= i,
        first_sep_from(s, i) >= 0,
    ensures
        i <= first_sep_from(s, i),
        first_sep_from(s, i) + 2 <= s.len(),
        s[first_sep_from(s, i)] == ':',
        s[first_sep_from(s, i) + 1] == ':',
    decreases s.len() - i,
{
    if i + 2 > s.len() {
    } else if s[i] == ':' && s[i + 1] == ':' {
    } else {
        lemma_sep_props(s, i + 1);
    }
}

proof fn lemma_sep_shift(s: Seq<char>, base: int, i: int)
    requires
        0 <= base <= s.len(),
        0 <= i,
    ensures
        first_sep_from(s.skip(base), i) == (if first_sep_from(s, base + i) >= 0 {
            first_sep_from(s, base + i) - base
        } else {
            -1
        }),
    decreases s.len() - base - i,
{
    if i + 2 > s.len() - base {
    } else {
        assert(s.skip(base)[i] == s[base + i]);
        assert(s.skip(base)[i + 1] == s[base + i + 1]);
        if s[base + i] == ':' && s[base + i + 1] == ':' {
        } else {
            lemma_sep_shift(s, base, i + 1);
        }
    }
}

fn find_sep(s: &str, from: usize, n: usize) -> (r: Option<usize>)
    requires
        from <= s@.len(),
        n == s@.len(),
    ensures
        match r {
            Some(i) => from <= i && first_sep_from(s@, from as int) == i,
            None => first_sep_from(s@, from as int) == -1,
        },
{
    let mut i = from;
    while i < n && i + 1 < n
        invariant
            n == s@.len(),
            from <= i,
            i <= n,
            first_sep_from(s@, from as int) == first_sep_from(s@, i as int),
        decreases n - i,
    {
        let c1 = s.get_char(i);
        let c2 = s.get_char(i + 1);
        if c1 == ':' && c2 == ':' {
            return Some(i);
        }
        i += 1;
    }
    None
}

impl BawiDB {
    /// The line that records one pair in the file: the key, the `::`
    /// separator, the value, and a newline.
    pub fn record_line(key: &String, value: &String) -> (r: String)
        ensures
            r@ == key@ + "::"@ + value@ + "\n"@,
    {
        let mut s = String::new();
        s.append(key.as_str());
        s.append("::");
        s.append(value.as_str());
        s.append("\n");
        proof {
            assert(s@ =~= key@ + "::"@ + value@ + "\n"@);
        }
        s
    }

    /// Scan the file's lines, front to back, for the first one of the form
    /// `key::value`; yield its value.  A line with no separator, another
    /// key, or a second separator in its value is passed over.
    pub fn search(&self, lines: &Vec<String>, key: &String) -> (r: Option<String>)
        ensures
            match search_spec(lines@.map_values(|l: String| l@), key@) {
                Option::Some(v) => r matches Some(s) && s@ == v,
                Option::None => r is None,
            },
    {
        let ghost lv = lines@.map_values(|l: String| l@);
        proof {
            assert(lv.skip(0) =~= lv);
        }
        let mut i: usize = 0;
        while i < lines.len()
            invariant
                i <= lines@.len(),
                lv == lines@.map_values(|l: String| l@),
                search_spec(lv.skip(i as int), key@) == search_spec(lv, key@),
            decreases lines@.len() - i,
        {
            let line = &lines[i];
            let ghost ls = line@;
            proof {
                assert(lv.skip(i as int)[0] == ls);
                assert(lv.skip(i as int).skip(1) =~= lv.skip(i as int + 1));
            }
            let n = line.as_str().unicode_len();
            match find_sep(line.as_str(), 0, n) {
                Some(sep) => {
                    proof {
                        lemma_sep_props(ls, 0);
                        lemma_sep_shift(ls, sep + 2, 0);
                    }
                    match find_sep(line.as_str(), sep + 2, n) {
                        Some(_) => {},
                        None => {
                            let kpart = line.as_str().substring_char(0, sep);
                            if String::from_str(kpart) == *key {
                                let vpart = line.as_str().substring_char(sep + 2, n);
                                proof {
                                    assert(ls.take(sep as int) =~= ls.subrange(0, sep as int));
                                    assert(ls.skip(sep + 2) =~= ls.subrange(
                                        sep + 2,
                                        ls.len() as int,
                                    ));
                                }
                                return Some(String::from_str(vpart));
                            }
                            proof {
                                assert(ls.take(sep as int) =~= ls.subrange(0, sep as int));
                            }
                        },
                    }
                },
                None => {},
            }
            i += 1;
        }
        proof {
            assert(lv.skip(i as int) =~= Seq::<Seq<char>>::empty());
        }
        None
    }
}

} // verus!
