use vstd::prelude::*;
use vstd::string::*;
use crate::model::{terms, Term};
use crate::preprocess::push_char;

verus! {

/// Whether the line has a comma at `p` and nowhere else.
pub open spec fn is_only_comma(line: Seq<char>, p: int) -> bool {
    &&& 0 <= p < line.len()
    &&& line[p] == ','
    &&& forall|q: int| 0 <= q < line.len() && q != p ==> line[q] != ','
}

/// The term that a line of a saved dictionary holds: a line of exactly two
/// comma-separated columns holds its second column, any other line holds
/// nothing.
pub open spec fn dictionary_entry(line: Seq<char>) -> Option<Term> {
    if exists|p: int| is_only_comma(line, p) {
        Some(line.skip((choose|p: int| is_only_comma(line, p)) + 1))
    } else {
        None
    }
}

/// The terms that the lines hold, in order; lines that hold none are passed
/// over.
pub open spec fn dictionary_entries(lines: Seq<Seq<char>>) -> Seq<Term>
    decreases lines.len(),
{
    if lines.len() == 0 {
        Seq::empty()
    } else {
        match dictionary_entry(lines.last()) {
            Some(term) => dictionary_entries(lines.drop_last()).push(term),
            None => dictionary_entries(lines.drop_last()),
        }
    }
}

/// Reads the term of one line of a saved dictionary.
pub fn parse_dictionary_line(line: &str) -> (out: Option<String>)
    ensures
        match out {
            Some(term) => dictionary_entry(line@) == Some(term@),
            None => dictionary_entry(line@) is None,
        },
{
    broadcast use group_string_axioms;
    let mut commas: u8 = 0;
    let mut rest = String::new();
    let ghost mut first: int = 0;
    let ghost mut second: int = 0;
    for c in it: line.chars()
        invariant
            it.seq() == line@,
            commas <= 2,
            commas == 0 ==> forall|q: int| 0 <= q < it.index() ==> line@[q] != ',',
            commas == 1 ==> {
                &&& 0 <= first < it.index()
                &&& line@[first] == ','
                &&& forall|q: int| 0 <= q < it.index() && q != first ==> line@[q] != ','
                &&& rest@ == line@.subrange(first + 1, it.index() as int)
            },
            commas == 2 ==> {
                &&& 0 <= first < second < it.index()
                &&& line@[first] == ','
                &&& line@[second] == ','
            },
    {
        let ghost k = it.index() as int;
        if c == ',' {
            if commas == 0 {
                proof {
                    first = k;
                }
                rest = String::new();
                commas = 1;
                proof {
                    assert(rest@ =~= line@.subrange(first + 1, k + 1));
                }
            } else if commas == 1 {
                proof {
                    second = k;
                }
                commas = 2;
            }
        } else if commas == 1 {
            push_char(&mut rest, c);
            proof {
                assert(rest@ =~= line@.subrange(first + 1, k + 1));
            }
        }
    }
    if commas == 1 {
        proof {
            assert(is_only_comma(line@, first));
            let p = choose|p: int| is_only_comma(line@, p);
            assert(p == first);
            assert(rest@ =~= line@.skip(first + 1));
        }
        Some(rest)
    } else {
        proof {
            assert forall|p: int| !is_only_comma(line@, p) by {
                if commas == 2 && is_only_comma(line@, p) {
                    assert(p == first || p == second);
                }
            }
        }
        None
    }
}

/// The lines behind the header line.
pub open spec fn after_header(lines: Seq<Seq<char>>) -> Seq<Seq<char>> {
    if lines.len() == 0 {
        lines
    } else {
        lines.skip(1)
    }
}

/// Reads a saved dictionary: the first line is a header and is passed over;
/// every later line of exactly two columns gives its second column, in the
/// order of the lines.
pub fn dictionary_from_lines(lines: &Vec<String>) -> (out: Vec<String>)
    ensures
        terms(out@) == dictionary_entries(after_header(terms(lines@))),
{
    let ghost all = terms(lines@);
    let mut out: Vec<String> = Vec::new();
    let n: usize = lines.len();
    if n == 0 {
        proof {
            assert(terms(out@) =~= dictionary_entries(after_header(all)));
        }
        return out;
    }
    let mut i: usize = 1;
    proof {
        assert(terms(out@) =~= dictionary_entries(all.subrange(1, 1)));
    }
    while i < n
        invariant
            n == lines@.len(),
            1 <= i <= n,
            all == terms(lines@),
            terms(out@) == dictionary_entries(all.subrange(1, i as int)),
        decreases n - i,
    {
        let ghost held = terms(out@);
        proof {
            assert(all.subrange(1, i + 1).drop_last() =~= all.subrange(1, i as int));
            assert(all.subrange(1, i + 1).last() == lines@[i as int]@);
        }
        match parse_dictionary_line(lines[i].as_str()) {
            Some(term) => {
                out.push(term);
                proof {
                    assert(terms(out@) =~= held.push(term@));
                }
            },
            None => {},
        }
        i = i + 1;
    }
    proof {
        assert(all.subrange(1, n as int) =~= all.skip(1));
    }
    out
}

} // verus!
