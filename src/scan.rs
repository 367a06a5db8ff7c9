use regex::Regex;
use vstd::prelude::*;
use vstd::utf8::{decode_utf8, valid_utf8};

verus! {

#[verifier::external_type_specification]
#[verifier::external_body]
pub struct ExRegex(regex::Regex);

/// Whether `regex::Regex::new` accepts a pattern.
pub uninterp spec fn regex_valid(pattern: Seq<char>) -> bool;

/// The pattern text a compiled regex was built from (`Regex::as_str`).
pub uninterp spec fn regex_source(re: Regex) -> Seq<char>;

/// The texts of the successive non-overlapping leftmost matches of a pattern
/// in a line, as `Regex::find_iter` yields them.
pub uninterp spec fn match_texts(pattern: Seq<char>, line: Seq<char>) -> Seq<Seq<char>>;

/// `t` occurs in `s` as a contiguous run of characters.
pub open spec fn is_substring(t: Seq<char>, s: Seq<char>) -> bool {
    exists|a: int, b: int| 0 <= a <= b <= s.len() && s.subrange(a, b) == t
}

/// The character sequences of a list of strings.
pub open spec fn texts(v: Seq<String>) -> Seq<Seq<char>> {
    v.map_values(|s: String| s@)
}

/// Relies on `regex::Regex::new`: it fails exactly on the patterns it
/// rejects, and the regex it builds keeps the pattern text.
#[verifier::external_body]
fn compile_one(pattern: &str) -> (r: Result<Regex, String>)
    ensures
        r is Ok <==> regex_valid(pattern@),
        r matches Ok(re) ==> regex_source(re) == pattern@,
{
    Regex::new(pattern).map_err(|e| e.to_string())
}

/// Relies on `regex::Regex::find_iter` and `Match::as_str`: the matched
/// substrings in order, each a slice of the line.
#[verifier::external_body]
fn find_all(re: &Regex, line: &str) -> (r: Vec<String>)
    ensures
        texts(r@) == match_texts(regex_source(*re), line@),
        forall|k: int| 0 <= k < r@.len() ==> is_substring(#[trigger] r@[k]@, line@),
{
    re.find_iter(line).map(|m| m.as_str().to_string()).collect()
}

/// Relies on `std::str::from_utf8`: it succeeds exactly on valid UTF-8.
#[verifier::external_body]
fn utf8_text(bytes: &[u8]) -> (r: Option<String>)
    ensures
        r is Some <==> valid_utf8(bytes@),
        r matches Some(s) ==> s@ == decode_utf8(bytes@),
{
    std::str::from_utf8(bytes).ok().map(|s| s.to_string())
}

/// Matches of every pattern on one line: all of the first pattern's, then
/// all of the second's, and so on.
pub open spec fn line_matches(pats: Seq<Seq<char>>, line: Seq<char>) -> Seq<Seq<char>>
    decreases pats.len(),
{
    if pats.len() == 0 {
        Seq::empty()
    } else {
        line_matches(pats.drop_last(), line) + match_texts(pats.last(), line)
    }
}

/// Matches over all lines, line by line.
pub open spec fn scan_lines(pats: Seq<Seq<char>>, lines: Seq<Seq<char>>) -> Seq<Seq<char>>
    decreases lines.len(),
{
    if lines.len() == 0 {
        Seq::empty()
    } else {
        scan_lines(pats, lines.drop_last()) + line_matches(pats, lines.last())
    }
}

/// `t` is a substring of one of `lines` and a match of one of `pats` on
/// that line.
pub open spec fn found_in(t: Seq<char>, pats: Seq<Seq<char>>, lines: Seq<Seq<char>>) -> bool {
    exists|i: int, j: int|
        0 <= i < lines.len() && 0 <= j < pats.len() && is_substring(t, lines[i])
            && (#[trigger] match_texts(pats[j], lines[i])).contains(t)
}

/// Every text in `out` is found in `lines` by `pats`.
pub open spec fn all_found(out: Seq<Seq<char>>, pats: Seq<Seq<char>>, lines: Seq<Seq<char>>) -> bool {
    forall|k: int| 0 <= k < out.len() ==> found_in(#[trigger] out[k], pats, lines)
}

/// Why a pattern list was refused.
#[derive(Debug)]
pub struct PatternError {
    /// Position of the first pattern that does not compile.
    pub index: usize,
    pub pattern: String,
    /// The regex engine's description of the fault.
    pub message: String,
}

/// The patterns, compiled in order, duplicates kept.
pub struct PatternSet {
    regexes: Vec<Regex>,
}

impl View for PatternSet {
    type V = Seq<Seq<char>>;

    closed spec fn view(&self) -> Seq<Seq<char>> {
        self.regexes@.map_values(|re: Regex| regex_source(re))
    }
}

impl PatternSet {
    /// Compiles every pattern; fails on the first that is not a valid
    /// regular expression.
    pub fn compile(patterns: &Vec<String>) -> (r: Result<PatternSet, PatternError>)
        ensures
            r is Ok <==> forall|i: int| 0 <= i < patterns@.len() ==> regex_valid(#[trigger] patterns@[i]@),
            r matches Ok(set) ==> set@ == texts(patterns@),
            r matches Err(e) ==> {
                &&& e.index < patterns@.len()
                &&& !regex_valid(patterns@[e.index as int]@)
                &&& e.pattern@ == patterns@[e.index as int]@
                &&& forall|i: int| 0 <= i < e.index ==> regex_valid(#[trigger] patterns@[i]@)
            },
    {
        let mut regexes: Vec<Regex> = Vec::new();
        let mut i: usize = 0;
        while i < patterns.len()
            invariant
                i <= patterns@.len(),
                regexes@.map_values(|re: Regex| regex_source(re)) == texts(patterns@.subrange(0, i as int)),
                forall|k: int| 0 <= k < i ==> regex_valid(#[trigger] patterns@[k]@),
            decreases patterns@.len() - i,
        {
            match compile_one(patterns[i].as_str()) {
                Ok(re) => {
                    let ghost before = regexes@;
                    regexes.push(re);
                    assert(regexes@.map_values(|re: Regex| regex_source(re)) =~= texts(
                        patterns@.subrange(0, i + 1),
                    )) by {
                        assert(texts(patterns@.subrange(0, i + 1)) =~= texts(
                            patterns@.subrange(0, i as int),
                        ).push(patterns@[i as int]@));
                    }
                },
                Err(message) => {
                    return Err(
                        PatternError { index: i, pattern: patterns[i].clone(), message },
                    );
                },
            }
            i = i + 1;
        }
        assert(patterns@.subrange(0, i as int) =~= patterns@);
        Ok(PatternSet { regexes })
    }

    /// Appends to `out` the matches of every pattern on `line`: all of the
    /// first pattern's, left to right, then all of the second's, and so on.
    pub fn scan_line(&self, line: &str, out: &mut Vec<String>)
        ensures
            texts(final(out)@) == texts(old(out)@) + line_matches(self@, line@),
            forall|k: int|
                old(out)@.len() <= k < final(out)@.len() ==> {
                    &&& is_substring(#[trigger] final(out)@[k]@, line@)
                    &&& exists|j: int|
                        0 <= j < self@.len() && (#[trigger] match_texts(self@[j], line@)).contains(
                            final(out)@[k]@,
                        )
                },
            self@.len() == 0 ==> final(out)@ == old(out)@,
    {
        let ghost pats = self@;
        let mut j: usize = 0;
        while j < self.regexes.len()
            invariant
                j <= self.regexes@.len(),
                pats == self@,
                pats.len() == self.regexes@.len(),
                texts(out@) == texts(old(out)@) + line_matches(pats.subrange(0, j as int), line@),
                old(out)@.len() <= out@.len(),
                forall|k: int| 0 <= k < old(out)@.len() ==> out@[k] == old(out)@[k],
                forall|k: int|
                    old(out)@.len() <= k < out@.len() ==> {
                        &&& is_substring(#[trigger] out@[k]@, line@)
                        &&& exists|jj: int|
                            0 <= jj < pats.len() && (#[trigger] match_texts(pats[jj], line@)).contains(
                                out@[k]@,
                            )
                    },
            decreases self.regexes@.len() - j,
        {
            let mut found = find_all(&self.regexes[j], line);
            let ghost mid = out@;
            let ghost got = found@;
            out.append(&mut found);
            proof {
                let pj = pats[j as int];
                assert(pj == regex_source(self.regexes@[j as int]));
                assert(out@ == mid + got);
                assert(pats.subrange(0, j + 1).drop_last() =~= pats.subrange(0, j as int));
                assert(texts(out@) =~= texts(mid) + texts(got));
                assert forall|k: int| old(out)@.len() <= k < out@.len() implies {
                    &&& is_substring(#[trigger] out@[k]@, line@)
                    &&& exists|jj: int|
                        0 <= jj < pats.len() && (#[trigger] match_texts(pats[jj], line@)).contains(
                            out@[k]@,
                        )
                } by {
                    if k >= mid.len() {
                        let m = k - mid.len();
                        assert(out@[k] == got[m]);
                        assert(texts(got)[m] == got[m]@);
                        assert(match_texts(pats[j as int], line@).contains(out@[k]@));
                    }
                }
            }
            j = j + 1;
        }
        assert(pats.subrange(0, j as int) =~= pats);
    }
}

/// Position of the first line feed in `data`, or its length if it has none.
pub open spec fn newline_at(data: Seq<u8>) -> nat
    decreases data.len(),
{
    if data.len() == 0 || data[0] == 10 {
        0
    } else {
        1 + newline_at(data.drop_first())
    }
}

/// A line without the carriage return that ended it, if any.
pub open spec fn strip_cr(line: Seq<u8>) -> Seq<u8> {
    if line.len() > 0 && line.last() == 13 {
        line.drop_last()
    } else {
        line
    }
}

/// The lines of `data`: the runs of bytes between line feeds, each without
/// its line feed and a carriage return before it; a last line without a
/// line feed counts, an empty one after the final line feed does not.
pub open spec fn raw_lines(data: Seq<u8>) -> Seq<Seq<u8>>
    decreases data.len(),
{
    if data.len() == 0 {
        Seq::empty()
    } else if newline_at(data) < data.len() {
        seq![strip_cr(data.take(newline_at(data) as int))] + raw_lines(
            data.skip(newline_at(data) + 1int),
        )
    } else {
        seq![data]
    }
}

/// Each line decoded as UTF-8.
pub open spec fn decoded(lines: Seq<Seq<u8>>) -> Seq<Seq<char>> {
    lines.map_values(|l: Seq<u8>| decode_utf8(l))
}

/// Why a scan failed.
#[derive(Debug)]
pub enum ScanError {
    /// A pattern is not a valid regular expression.
    Pattern(PatternError),
    /// A line, counted from 0, is not valid UTF-8.
    NotText { line: usize },
}

proof fn lemma_newline_at(s: Seq<u8>, m: int)
    requires
        0 <= m <= s.len(),
        forall|j: int| 0 <= j < m ==> s[j] != 10,
        m < s.len() ==> s[m] == 10,
    ensures
        newline_at(s) == m,
    decreases m,
{
    if m > 0 {
        lemma_newline_at(s.drop_first(), m - 1);
    }
}

/// Lines handed to the matcher one after another keep `all_found`.
proof fn lemma_all_found_push(
    out: Seq<Seq<char>>,
    more: Seq<Seq<char>>,
    pats: Seq<Seq<char>>,
    lines: Seq<Seq<char>>,
    line: Seq<char>,
)
    requires
        all_found(out, pats, lines),
        forall|k: int|
            0 <= k < more.len() ==> {
                &&& is_substring(#[trigger] more[k], line)
                &&& exists|j: int|
                    0 <= j < pats.len() && (#[trigger] match_texts(pats[j], line)).contains(more[k])
            },
    ensures
        all_found(out + more, pats, lines.push(line)),
{
    let all = out + more;
    let ls = lines.push(line);
    assert forall|k: int| 0 <= k < all.len() implies found_in(#[trigger] all[k], pats, ls) by {
        if k < out.len() {
            assert(found_in(out[k], pats, lines));
            let (i, j) = choose|i: int, j: int|
                0 <= i < lines.len() && 0 <= j < pats.len() && is_substring(out[k], lines[i])
                    && (#[trigger] match_texts(pats[j], lines[i])).contains(out[k]);
            assert(ls[i] == lines[i]);
            assert(all[k] == out[k]);
            assert(is_substring(all[k], ls[i]) && match_texts(pats[j], ls[i]).contains(all[k]));
        } else {
            let m = k - out.len();
            assert(all[k] == more[m]);
            assert(is_substring(more[m], line));
            let j = choose|j: int|
                0 <= j < pats.len() && (#[trigger] match_texts(pats[j], line)).contains(more[m]);
            let i = lines.len() as int;
            assert(ls[i] == line);
            assert(is_substring(all[k], ls[i]) && match_texts(pats[j], ls[i]).contains(all[k]));
        }
    }
}

/// Scans the lines of `data` with `patterns`: every match of every pattern,
/// line by line, in pattern order within a line, left to right for one
/// pattern. All patterns are compiled before any line is looked at.
pub fn scan_bytes(patterns: &Vec<String>, data: &[u8]) -> (r: Result<Vec<String>, ScanError>)
    ensures
        r is Ok <==> (forall|i: int| 0 <= i < patterns@.len() ==> regex_valid(#[trigger] patterns@[i]@))
            && (forall|i: int|
            0 <= i < raw_lines(data@).len() ==> valid_utf8(#[trigger] raw_lines(data@)[i])),
        r matches Ok(v) ==> texts(v@) == scan_lines(texts(patterns@), decoded(raw_lines(data@))),
        r matches Ok(v) ==> all_found(texts(v@), texts(patterns@), decoded(raw_lines(data@))),
        r matches Err(ScanError::Pattern(e)) ==> {
            &&& e.index < patterns@.len()
            &&& !regex_valid(patterns@[e.index as int]@)
            &&& e.pattern@ == patterns@[e.index as int]@
            &&& forall|i: int| 0 <= i < e.index ==> regex_valid(#[trigger] patterns@[i]@)
        },
        r matches Err(ScanError::NotText { line }) ==> {
            &&& forall|i: int| 0 <= i < patterns@.len() ==> regex_valid(#[trigger] patterns@[i]@)
            &&& line < raw_lines(data@).len()
            &&& !valid_utf8(raw_lines(data@)[line as int])
            &&& forall|i: int| 0 <= i < line ==> valid_utf8(#[trigger] raw_lines(data@)[i])
        },
        patterns@.len() == 0 && r is Ok ==> r->Ok_0@.len() == 0,
{
    let set = match PatternSet::compile(patterns) {
        Ok(s) => s,
        Err(e) => return Err(ScanError::Pattern(e)),
    };
    let ghost pats = texts(patterns@);
    let mut out: Vec<String> = Vec::new();
    let mut start: usize = 0;
    let mut i: usize = 0;
    let mut count: usize = 0;
    let ghost mut done: Seq<Seq<u8>> = Seq::empty();
    assert(data@.skip(0) =~= data@);
    assert(texts(out@) =~= scan_lines(pats, decoded(done)));
    while i < data.len()
        invariant
            start <= i <= data@.len(),
            count == done.len(),
            count <= start,
            set@ == pats,
            forall|k: int| 0 <= k < patterns@.len() ==> regex_valid(#[trigger] patterns@[k]@),
            raw_lines(data@) == done + raw_lines(data@.skip(start as int)),
            forall|j: int| start <= j < i ==> data@[j] != 10,
            forall|k: int| 0 <= k < done.len() ==> valid_utf8(#[trigger] done[k]),
            texts(out@) == scan_lines(pats, decoded(done)),
            all_found(texts(out@), pats, decoded(done)),
        decreases data@.len() - i,
    {
        if data[i] == 10 {
            let end: usize = if i > start && data[i - 1] == 13 {
                i - 1
            } else {
                i
            };
            let piece = vstd::slice::slice_subrange(data, start, end);
            proof {
                let rest = data@.skip(start as int);
                lemma_newline_at(rest, i - start);
                assert(rest.take(i - start) =~= data@.subrange(start as int, i as int));
                assert(rest.skip(i - start + 1) =~= data@.skip(i + 1));
                assert(piece@ =~= strip_cr(data@.subrange(start as int, i as int)));
                assert(raw_lines(data@) =~= done.push(piece@) + raw_lines(data@.skip(i + 1)));
            }
            match utf8_text(piece) {
                None => {
                    proof {
                        assert(raw_lines(data@)[count as int] == piece@);
                        assert forall|k: int| 0 <= k < count implies valid_utf8(
                            #[trigger] raw_lines(data@)[k],
                        ) by {
                            assert(raw_lines(data@)[k] == done[k]);
                        }
                    }
                    return Err(ScanError::NotText { line: count });
                },
                Some(text) => {
                    let ghost before = out@;
                    set.scan_line(text.as_str(), &mut out);
                    proof {
                        lemma_all_found_push(
                            texts(before),
                            texts(out@).skip(before.len() as int),
                            pats,
                            decoded(done),
                            text@,
                        );
                        assert(texts(before) + texts(out@).skip(before.len() as int) =~= texts(
                            out@,
                        ));
                        assert(decoded(done.push(piece@)) =~= decoded(done).push(text@));
                        assert(decoded(done.push(piece@)).drop_last() =~= decoded(done));
                        done = done.push(piece@);
                    }
                },
            }
            count = count + 1;
            start = i + 1;
        }
        i = i + 1;
    }
    if start < data.len() {
        let piece = vstd::slice::slice_subrange(data, start, data.len());
        proof {
            let rest = data@.skip(start as int);
            lemma_newline_at(rest, rest.len() as int);
            assert(piece@ =~= rest);
            assert(raw_lines(data@) =~= done.push(piece@));
        }
        match utf8_text(piece) {
            None => {
                proof {
                    assert(raw_lines(data@)[count as int] == piece@);
                    assert forall|k: int| 0 <= k < count implies valid_utf8(
                        #[trigger] raw_lines(data@)[k],
                    ) by {
                        assert(raw_lines(data@)[k] == done[k]);
                    }
                }
                return Err(ScanError::NotText { line: count });
            },
            Some(text) => {
                let ghost before = out@;
                set.scan_line(text.as_str(), &mut out);
                proof {
                    lemma_all_found_push(
                        texts(before),
                        texts(out@).skip(before.len() as int),
                        pats,
                        decoded(done),
                        text@,
                    );
                    assert(texts(before) + texts(out@).skip(before.len() as int) =~= texts(out@));
                    assert(decoded(done.push(piece@)) =~= decoded(done).push(text@));
                    assert(decoded(done.push(piece@)).drop_last() =~= decoded(done));
                    done = done.push(piece@);
                }
            },
        }
    } else {
        assert(data@.skip(start as int).len() == 0);
        assert(raw_lines(data@) =~= done);
    }
    proof {
        if patterns@.len() == 0 {
            assert(pats =~= Seq::<Seq<char>>::empty());
            lemma_scan_no_patterns(decoded(done));
            assert(texts(out@).len() == 0);
        }
    }
    Ok(out)
}

/// With no patterns nothing is found, whatever the lines.
pub proof fn lemma_scan_no_patterns(lines: Seq<Seq<char>>)
    ensures
        scan_lines(Seq::empty(), lines) == Seq::<Seq<char>>::empty(),
    decreases lines.len(),
{
    if lines.len() > 0 {
        lemma_scan_no_patterns(lines.drop_last());
        assert(line_matches(Seq::empty(), lines.last()) =~= Seq::<Seq<char>>::empty());
        assert(scan_lines(Seq::empty(), lines) =~= Seq::<Seq<char>>::empty());
    }
}

} // verus!
