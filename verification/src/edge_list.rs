//! Reading an edge list from text.
//!
//! Each line of three numbers `from to weight`, separated by white space,
//! is one edge. A line with another count of words is passed over. A word
//! that is no number makes the whole text malformed.

use crate::error::RouteError;
use crate::graph::{adjacency, get_adjacency_nodes, Edge};
use vstd::prelude::*;

verus! {

/// White space, as Unicode defines it.
pub open spec fn is_space(c: char) -> bool {
    let u = c as u32;
    (0x9 <= u <= 0xD) || u == 0x20 || u == 0x85 || u == 0xA0 || u == 0x1680 || (0x2000 <= u
        <= 0x200A) || u == 0x2028 || u == 0x2029 || u == 0x202F || u == 0x205F || u == 0x3000
}

/// Whether the character is white space.
pub fn is_whitespace(c: char) -> (r: bool)
    ensures
        r == is_space(c),
{
    let u: u32 = c as u32;
    (0x9 <= u && u <= 0xD) || u == 0x20 || u == 0x85 || u == 0xA0 || u == 0x1680 || (0x2000 <= u
        && u <= 0x200A) || u == 0x2028 || u == 0x2029 || u == 0x202F || u == 0x205F || u
        == 0x3000
}

/// The lines of a text: what stands between line feeds. A line feed at the
/// very end opens no further line.
pub open spec fn lines(s: Seq<char>) -> Seq<Seq<char>>
    decreases s.len(),
{
    if s.len() == 0 {
        Seq::empty()
    } else if s[0] == '\n' {
        seq![Seq::<char>::empty()] + lines(s.skip(1))
    } else {
        let rest = lines(s.skip(1));
        if rest.len() == 0 {
            seq![seq![s[0]]]
        } else {
            rest.update(0, seq![s[0]] + rest[0])
        }
    }
}

/// The words of a line: its longest runs of characters that are no white
/// space.
pub open spec fn words(s: Seq<char>) -> Seq<Seq<char>>
    decreases s.len(),
{
    if s.len() == 0 {
        Seq::empty()
    } else if is_space(s[0]) {
        words(s.skip(1))
    } else {
        let rest = words(s.skip(1));
        if s.len() >= 2 && !is_space(s[1]) {
            rest.update(0, seq![s[0]] + rest[0])
        } else {
            seq![seq![s[0]]] + rest
        }
    }
}

/// A decimal digit.
pub open spec fn is_digit(c: char) -> bool {
    '0' as u32 <= c as u32 <= '9' as u32
}

/// Every character is a decimal digit.
pub open spec fn all_digits(s: Seq<char>) -> bool {
    forall|i: int| 0 <= i < s.len() ==> is_digit(#[trigger] s[i])
}

/// The number that decimal digits write.
pub open spec fn digits_value(s: Seq<char>) -> int
    decreases s.len(),
{
    if s.len() == 0 {
        0
    } else {
        digits_value(s.drop_last()) * 10 + (s.last() as u32 - '0' as u32)
    }
}

/// The number that a word writes: an optional sign and one decimal digit
/// at least, of a value that `i32` holds.
pub open spec fn number(word: Seq<char>) -> Option<i32> {
    let signed = word.len() > 0 && (word[0] == '-' || word[0] == '+');
    let digits = if signed {
        word.skip(1)
    } else {
        word
    };
    let value = if word.len() > 0 && word[0] == '-' {
        -digits_value(digits)
    } else {
        digits_value(digits)
    };
    if digits.len() > 0 && all_digits(digits) && i32::MIN <= value <= i32::MAX {
        Some(value as i32)
    } else {
        None
    }
}

/// Every word writes a number.
pub open spec fn all_numbers(w: Seq<Seq<char>>) -> bool {
    forall|i: int| 0 <= i < w.len() ==> number(#[trigger] w[i]) is Some
}

/// What a line says: nothing where it does not hold three words, an edge
/// where it does, and an error where one of its words is no number.
pub open spec fn line_edge(line: Seq<char>) -> Result<Option<Edge>, ()> {
    let w = words(line);
    if !all_numbers(w) {
        Err(())
    } else if w.len() == 3 {
        Ok(
            Some(
                Edge {
                    from: number(w[0])->Some_0,
                    to: number(w[1])->Some_0,
                    weight: number(w[2])->Some_0,
                },
            ),
        )
    } else {
        Ok(None)
    }
}

/// The edges that the lines say, in order, or the index of the first
/// malformed line.
pub open spec fn edges_of(ls: Seq<Seq<char>>) -> Result<Seq<Edge>, nat>
    decreases ls.len(),
{
    if ls.len() == 0 {
        Ok(Seq::empty())
    } else {
        match edges_of(ls.drop_last()) {
            Err(k) => Err(k),
            Ok(edges) => match line_edge(ls.last()) {
                Err(_) => Err((ls.len() - 1) as nat),
                Ok(Some(e)) => Ok(edges.push(e)),
                Ok(None) => Ok(edges),
            },
        }
    }
}

/// The edges that a text says.
pub open spec fn parsed(text: Seq<char>) -> Result<Seq<Edge>, nat> {
    edges_of(lines(text))
}

proof fn lemma_lines_run(s: Seq<char>, n: int)
    requires
        0 <= n <= s.len(),
        forall|k: int| 0 <= k < n ==> s[k] != '\n',
        n < s.len() ==> s[n] == '\n',
    ensures
        n < s.len() ==> lines(s) == seq![s.take(n)] + lines(s.skip(n + 1)),
        n == s.len() && n > 0 ==> lines(s) == seq![s],
    decreases n,
{
    if n == 0 {
        if s.len() > 0 {
            assert(s.take(0) =~= Seq::<char>::empty());
        }
    } else {
        let t = s.skip(1);
        lemma_lines_run(t, n - 1);
        let rest = lines(t);
        if n < s.len() {
            assert(t.skip(n) =~= s.skip(n + 1));
            assert(seq![s[0]] + t.take(n - 1) =~= s.take(n));
            assert(rest.update(0, seq![s[0]] + rest[0]) =~= seq![s.take(n)] + lines(
                s.skip(n + 1),
            ));
        } else if n == 1 {
            assert(t.len() == 0);
            assert(seq![s[0]] =~= s);
        } else {
            assert(seq![s[0]] + t =~= s);
            assert(rest.update(0, seq![s[0]] + rest[0]) =~= seq![s]);
        }
    }
}

proof fn lemma_words_run(s: Seq<char>, n: int)
    requires
        1 <= n <= s.len(),
        forall|k: int| 0 <= k < n ==> !is_space(s[k]),
        n < s.len() ==> is_space(s[n]),
    ensures
        words(s) == seq![s.take(n)] + words(s.skip(n)),
    decreases n,
{
    let t = s.skip(1);
    let rest = words(t);
    if n == 1 {
        assert(seq![s[0]] =~= s.take(1));
    } else {
        lemma_words_run(t, n - 1);
        assert(t.skip(n - 1) =~= s.skip(n));
        assert(seq![s[0]] + t.take(n - 1) =~= s.take(n));
        assert(rest.update(0, seq![s[0]] + rest[0]) =~= seq![s.take(n)] + words(s.skip(n)));
    }
}

proof fn lemma_edges_of_failed(a: Seq<Seq<char>>, b: Seq<Seq<char>>)
    requires
        edges_of(a) is Err,
    ensures
        edges_of(a + b) == edges_of(a),
    decreases b.len(),
{
    if b.len() == 0 {
        assert(a + b =~= a);
    } else {
        lemma_edges_of_failed(a, b.drop_last());
        assert((a + b).drop_last() =~= a + b.drop_last());
    }
}

/// The number that the characters of `text` from `from` up to `to` write.
fn parse_number(text: &Vec<char>, from: usize, to: usize) -> (r: Option<i32>)
    requires
        from < to <= text.len(),
    ensures
        r == number(text@.subrange(from as int, to as int)),
{
    let ghost word = text@.subrange(from as int, to as int);
    let negative = text[from] == '-';
    let signed = negative || text[from] == '+';
    let start: usize = if signed {
        from + 1
    } else {
        from
    };
    let ghost digits = text@.subrange(start as int, to as int);
    assert(word[0] == text@[from as int]);
    assert(digits =~= if signed {
        word.skip(1)
    } else {
        word
    });
    if start == to {
        return None;
    }
    let limit: i64 = 0x8000_0000;
    let mut value: i64 = 0;
    let mut i: usize = start;
    while i < to
        invariant
            start <= i <= to <= text.len(),
            limit == 0x8000_0000,
            word == text@.subrange(from as int, to as int),
            digits == text@.subrange(start as int, to as int),
            digits == (if word.len() > 0 && (word[0] == '-' || word[0] == '+') {
                word.skip(1)
            } else {
                word
            }),
            all_digits(digits.take(i - start)),
            0 <= value <= limit + 1,
            value <= limit ==> value == digits_value(digits.take(i - start)),
            value == limit + 1 ==> digits_value(digits.take(i - start)) > limit,
        decreases to - i,
    {
        let c = text[i];
        let u: u32 = c as u32;
        let ghost seen = digits.take(i - start);
        let ghost more = digits.take(i - start + 1);
        assert(more.drop_last() =~= seen);
        assert(more.last() == c);
        if u < 48 || u > 57 {
            assert(!is_digit(digits[i - start]));
            return None;
        }
        assert forall|k: int| 0 <= k < more.len() implies is_digit(#[trigger] more[k]) by {
            if k < seen.len() {
                assert(seen[k] == more[k]);
            }
        }
        let d: i64 = (u - 48) as i64;
        if value <= limit {
            value = value * 10 + d;
            if value > limit {
                value = limit + 1;
            }
        }
        i = i + 1;
    }
    assert(digits.take(to - start) =~= digits);
    if negative {
        if value <= limit {
            Some((-value) as i32)
        } else {
            None
        }
    } else if value < limit {
        Some(value as i32)
    } else {
        None
    }
}

/// What the line of `text` from `from` up to `to` says.
fn parse_line(text: &Vec<char>, from: usize, to: usize) -> (r: Result<Option<Edge>, ()>)
    requires
        from <= to <= text.len(),
    ensures
        r == line_edge(text@.subrange(from as int, to as int)),
{
    let ghost line = text@.subrange(from as int, to as int);
    let ghost mut done: Seq<Seq<char>> = Seq::empty();
    let mut count: usize = 0;
    let mut first: i32 = 0;
    let mut second: i32 = 0;
    let mut third: i32 = 0;
    let mut p: usize = from;
    assert(line.skip(0) =~= line);
    while p < to
        invariant
            from <= p <= to <= text.len(),
            line == text@.subrange(from as int, to as int),
            words(line) == done + words(line.skip(p - from)),
            all_numbers(done),
            count <= 4,
            count < 4 ==> count == done.len(),
            count == 4 ==> done.len() >= 4,
            count >= 1 ==> number(done[0]) == Some(first),
            count >= 2 ==> number(done[1]) == Some(second),
            count >= 3 ==> number(done[2]) == Some(third),
        decreases to - p,
    {
        let ghost here = line.skip(p - from);
        assert(here[0] == text@[p as int]);
        if is_whitespace(text[p]) {
            assert(here.skip(1) =~= line.skip(p - from + 1));
            p = p + 1;
        } else {
            let mut q: usize = p + 1;
            while q < to && !is_whitespace(text[q])
                invariant
                    p < q <= to <= text.len(),
                    from <= p,
                    line == text@.subrange(from as int, to as int),
                    forall|k: int| p <= k < q ==> !is_space(text@[k]),
                decreases to - q,
            {
                q = q + 1;
            }
            proof {
                assert forall|k: int| 0 <= k < q - p implies !is_space(here[k]) by {
                    assert(here[k] == text@[p + k]);
                }
                if q < to {
                    assert(here[q - p] == text@[q as int]);
                }
                lemma_words_run(here, q - p);
                assert(here.skip(q - p) =~= line.skip(q - from));
                assert(here.take(q - p) =~= text@.subrange(p as int, q as int));
            }
            let ghost word = text@.subrange(p as int, q as int);
            let value = match parse_number(text, p, q) {
                Some(v) => v,
                None => {
                    proof {
                        let w = words(line);
                        assert(w[done.len() as int] == word);
                        assert(!all_numbers(w));
                    }
                    return Err(());
                },
            };
            proof {
                let grown = done.push(word);
                assert(grown + words(line.skip(q - from)) =~= done + (seq![word] + words(
                    line.skip(q - from),
                )));
                assert forall|i: int| 0 <= i < grown.len() implies number(
                    #[trigger] grown[i],
                ) is Some by {
                    if i < done.len() {
                        assert(grown[i] == done[i]);
                    }
                }
                done = grown;
            }
            if count == 0 {
                first = value;
            } else if count == 1 {
                second = value;
            } else if count == 2 {
                third = value;
            }
            if count < 4 {
                count = count + 1;
            }
            p = q;
        }
    }
    proof {
        assert(line.skip(to - from) =~= Seq::<char>::empty());
        assert(done + Seq::<Seq<char>>::empty() =~= done);
    }
    if count == 3 {
        Ok(Some(Edge { from: first, to: second, weight: third }))
    } else {
        Ok(None)
    }
}

/// Reads the edges that `text` says. The error names the first line that
/// holds a word that is no number.
pub fn parse_edge_list(text: &Vec<char>) -> (r: Result<Vec<Edge>, RouteError>)
    ensures
        match r {
            Ok(edges) => parsed(text@) == Ok::<Seq<Edge>, nat>(edges@),
            Err(e) => parsed(text@) is Err && e == (RouteError::MalformedLine {
                line: parsed(text@)->Err_0 as usize,
            }) && parsed(text@)->Err_0 <= usize::MAX,
        },
{
    let mut edges: Vec<Edge> = Vec::new();
    let ghost mut done: Seq<Seq<char>> = Seq::empty();
    let mut line_no: usize = 0;
    let mut i: usize = 0;
    assert(text@.skip(0) =~= text@);
    while i < text.len()
        invariant
            i <= text.len(),
            lines(text@) == done + lines(text@.skip(i as int)),
            edges_of(done) == Ok::<Seq<Edge>, nat>(edges@),
            line_no == done.len(),
            line_no <= i,
        decreases text.len() - i,
    {
        let mut j: usize = i;
        while j < text.len() && text[j] != '\n'
            invariant
                i <= j <= text.len(),
                forall|k: int| i <= k < j ==> text@[k] != '\n',
            decreases text.len() - j,
        {
            j = j + 1;
        }
        let ghost here = text@.skip(i as int);
        let ghost line = text@.subrange(i as int, j as int);
        let ghost grown = done.push(line);
        proof {
            assert forall|k: int| 0 <= k < j - i implies here[k] != '\n' by {
                assert(here[k] == text@[i + k]);
            }
            if j < text.len() {
                assert(here[j - i] == text@[j as int]);
            }
            lemma_lines_run(here, j - i);
            assert(here.take(j - i) =~= line);
            assert(grown.drop_last() =~= done);
            if j < text.len() {
                assert(here.skip(j - i + 1) =~= text@.skip(j + 1));
                assert(grown + lines(text@.skip(j + 1)) =~= done + (seq![line] + lines(
                    text@.skip(j + 1),
                )));
            } else {
                assert(here =~= line);
                assert(lines(here) == seq![line]);
                assert(grown =~= done + seq![line]);
            }
        }
        match parse_line(text, i, j) {
            Err(_) => {
                proof {
                    if j < text.len() {
                        lemma_edges_of_failed(grown, lines(text@.skip(j + 1)));
                    }
                }
                return Err(RouteError::MalformedLine { line: line_no });
            },
            Ok(Some(e)) => {
                edges.push(e);
            },
            Ok(None) => {},
        }
        proof {
            done = grown;
        }
        line_no = line_no + 1;
        if j < text.len() {
            i = j + 1;
        } else {
            i = j;
            assert(text@.skip(i as int) =~= Seq::<char>::empty());
            assert(done + lines(Seq::<char>::empty()) =~= done);
        }
    }
    proof {
        assert(text@.skip(i as int) =~= Seq::<char>::empty());
        assert(done + lines(Seq::<char>::empty()) =~= done);
    }
    Ok(edges)
}

/// The hops that leave `node` in the edge list that `text` says.
pub fn get_adjacency_nodes_from_file(text: &Vec<char>, node: i32) -> (r: Result<
    Vec<Edge>,
    RouteError,
>)
    ensures
        match r {
            Ok(hops) => parsed(text@) is Ok && hops@ == adjacency(parsed(text@)->Ok_0, node),
            Err(e) => parsed(text@) is Err && e == (RouteError::MalformedLine {
                line: parsed(text@)->Err_0 as usize,
            }),
        },
{
    match parse_edge_list(text) {
        Ok(edges) => Ok(get_adjacency_nodes(&edges, node)),
        Err(e) => Err(e),
    }
}

} // verus!
