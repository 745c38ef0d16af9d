use vstd::prelude::*;

verus! {

/// The byte that separates tokens of a line.
pub open spec fn space_byte() -> u8 {
    32
}

/// The views of a sequence of byte lines.
pub open spec fn byte_lines_view(lines: Seq<Vec<u8>>) -> Seq<Seq<u8>> {
    lines.map_values(|l: Vec<u8>| l@)
}

/// Index of the first space of `s`, or its length when it has none.
pub open spec fn first_space(s: Seq<u8>) -> int
    decreases s.len(),
{
    if s.len() == 0 {
        0
    } else if s[0] == space_byte() {
        0
    } else {
        1 + first_space(s.drop_first())
    }
}

/// `first_space` points at a space within bounds, or at the end of a spaceless
/// sequence.
pub proof fn lemma_first_space_props(s: Seq<u8>)
    ensures
        0 <= first_space(s) <= s.len(),
        first_space(s) < s.len() ==> s[first_space(s)] == space_byte(),
        forall|m: int| 0 <= m < first_space(s) ==> s[m] != space_byte(),
    decreases s.len(),
{
    if s.len() > 0 && s[0] != space_byte() {
        lemma_first_space_props(s.drop_first());
        assert forall|m: int| 0 <= m < first_space(s) implies s[m] != space_byte() by {
            if m > 0 {
                assert(s.drop_first()[m - 1] == s[m]);
            }
        }
    }
}

/// `first_space` is determined by a spaceless prefix followed by a space or
/// the end.
pub proof fn lemma_first_space_at(s: Seq<u8>, m: int)
    requires
        0 <= m <= s.len(),
        forall|t: int| 0 <= t < m ==> s[t] != space_byte(),
        m < s.len() ==> s[m] == space_byte(),
    ensures
        first_space(s) == m,
    decreases m,
{
    if m > 0 {
        lemma_first_space_at(s.drop_first(), m - 1);
    }
}

/// The tokens of a line: maximal space-free runs, split on every single space,
/// so that consecutive spaces yield empty tokens. Every line has at least one
/// token.
pub open spec fn spec_split(s: Seq<u8>) -> Seq<Seq<u8>>
    decreases s.len(),
{
    let k = first_space(s);
    if 0 <= k < s.len() {
        seq![s.take(k)] + spec_split(s.skip(k + 1))
    } else {
        seq![s]
    }
}

/// Whether `b` is an ASCII decimal digit.
pub open spec fn spec_is_digit(b: u8) -> bool {
    48 <= b <= 57
}

/// Whether `s` consists of digits only.
pub open spec fn spec_all_digits(s: Seq<u8>) -> bool {
    forall|k: int| 0 <= k < s.len() ==> spec_is_digit(#[trigger] s[k])
}

/// The value of a digit string read in base ten.
pub open spec fn digits_val(s: Seq<u8>) -> int
    decreases s.len(),
{
    if s.len() == 0 {
        0
    } else {
        digits_val(s.drop_last()) * 10 + (s.last() - 48)
    }
}

/// Under `spec_all_digits`, the base-ten value is non-negative and grows with
/// the prefix length.
pub proof fn lemma_digits_val_prefix_le(s: Seq<u8>, k1: int, k2: int)
    requires
        0 <= k1 <= k2 <= s.len(),
        spec_all_digits(s),
    ensures
        0 <= digits_val(s.take(k1)) <= digits_val(s.take(k2)),
    decreases k2 - k1,
{
    lemma_digits_val_nonneg(s.take(k1));
    if k1 < k2 {
        lemma_digits_val_prefix_le(s, k1 + 1, k2);
        assert(s.take(k1 + 1).drop_last() =~= s.take(k1));
        assert(s.take(k1 + 1).last() == s[k1]);
        lemma_digits_val_nonneg(s.take(k1));
    }
}

/// A digit string has a non-negative value.
pub proof fn lemma_digits_val_nonneg(s: Seq<u8>)
    requires
        forall|k: int| 0 <= k < s.len() ==> spec_is_digit(#[trigger] s[k]),
    ensures
        digits_val(s) >= 0,
    decreases s.len(),
{
    if s.len() > 0 {
        assert(s.drop_last() =~= s.take(s.len() - 1));
        assert(forall|k: int|
            0 <= k < s.drop_last().len() ==> spec_is_digit(#[trigger] s.drop_last()[k]));
        lemma_digits_val_nonneg(s.drop_last());
    }
}

/// The unsigned value of a token, read the way the standard integer parser
/// does: an optional leading plus sign, then at least one digit, rejecting
/// values above the index-type maximum.
pub open spec fn spec_parse_usize(s: Seq<u8>) -> Option<int> {
    let body = if s.len() > 0 && s[0] == 43 {
        s.drop_first()
    } else {
        s
    };
    if body.len() > 0 && spec_all_digits(body) && digits_val(body) <= usize::MAX {
        Some(digits_val(body))
    } else {
        None
    }
}

/// An edge line: exactly two tokens, both unsigned numbers.
pub open spec fn spec_parse_edge_line(line: Seq<u8>) -> Option<(int, int)> {
    let ts = spec_split(line);
    if ts.len() == 2 {
        match (spec_parse_usize(ts[0]), spec_parse_usize(ts[1])) {
            (Some(u), Some(v)) => Some((u, v)),
            _ => None,
        }
    } else {
        None
    }
}

/// A header line: exactly five tokens `p <descriptor> <fixed> <free> <edges>`
/// whose three counts are unsigned numbers.
pub open spec fn spec_parse_p_line(line: Seq<u8>) -> Option<(Seq<u8>, int, int, int)> {
    let ts = spec_split(line);
    if ts.len() == 5 && ts[0] == seq![112u8] {
        match (spec_parse_usize(ts[2]), spec_parse_usize(ts[3]), spec_parse_usize(ts[4])) {
            (Some(f), Some(r), Some(e)) => Some((ts[1], f, r, e)),
            _ => None,
        }
    } else {
        None
    }
}

/// Splits a line into its tokens on single spaces.
#[verifier::loop_isolation(false)]
pub fn split_line(line: &Vec<u8>) -> (tokens: Vec<Vec<u8>>)
    ensures
        byte_lines_view(tokens@) == spec_split(line@),
{
    let mut tokens: Vec<Vec<u8>> = Vec::new();
    let mut cur: Vec<u8> = Vec::new();
    let ghost mut start: int = 0;
    proof {
        assert(line@.skip(0) =~= line@);
        assert(byte_lines_view(tokens@) + spec_split(line@) =~= spec_split(line@));
    }
    let mut i: usize = 0;
    while i < line.len()
        invariant
            0 <= start <= i <= line@.len(),
            cur@ == line@.subrange(start, i as int),
            forall|m: int| start <= m < i ==> line@[m] != space_byte(),
            spec_split(line@) == byte_lines_view(tokens@) + spec_split(line@.skip(start)),
        decreases line@.len() - i,
    {
        let b = line[i];
        if b == 32 {
            proof {
                let suffix = line@.skip(start);
                assert(forall|t: int|
                    0 <= t < i - start ==> #[trigger] suffix[t] == line@[t + start]);
                lemma_first_space_at(suffix, i - start);
                assert(suffix.take(i - start) =~= line@.subrange(start, i as int));
                assert(suffix.skip(i - start + 1) =~= line@.skip(i + 1));
                assert(byte_lines_view((tokens@).push(cur)) =~= byte_lines_view(tokens@) + seq![
                    cur@,
                ]);
            }
            tokens.push(cur);
            cur = Vec::new();
            proof {
                start = i + 1;
            }
        } else {
            cur.push(line[i]);
            proof {
                assert(cur@ =~= line@.subrange(start, i + 1));
            }
        }
        i = i + 1;
    }
    proof {
        let suffix = line@.skip(start);
        assert(forall|t: int|
            0 <= t < suffix.len() ==> #[trigger] suffix[t] == line@[t + start]);
        lemma_first_space_at(suffix, suffix.len() as int);
        assert(cur@ =~= suffix);
        assert(byte_lines_view((tokens@).push(cur)) =~= byte_lines_view(tokens@) + seq![cur@]);
        assert(byte_lines_view((tokens@).push(cur)) =~= spec_split(line@));
    }
    tokens.push(cur);
    tokens
}

/// Parses an unsigned number the way the standard integer parser does.
#[verifier::loop_isolation(false)]
pub fn parse_usize_token(token: &Vec<u8>) -> (r: Option<usize>)
    ensures
        r matches Some(v) ==> spec_parse_usize(token@) == Some(v as int),
        r is None ==> spec_parse_usize(token@) is None,
{
    let mut idx: usize = 0;
    if token.len() > 0 && token[0] == 43 {
        idx = 1;
    }
    let ghost body = token@.skip(idx as int);
    proof {
        if idx == 1 {
            assert(body =~= token@.drop_first());
        } else {
            assert(body =~= token@);
        }
    }
    if idx >= token.len() {
        return None;
    }
    let mut acc: usize = 0;
    let mut i: usize = idx;
    while i < token.len()
        invariant
            idx <= i <= token@.len(),
            forall|k: int| 0 <= k < i - idx ==> spec_is_digit(#[trigger] body[k]),
            acc == digits_val(body.take(i - idx)),
        decreases token@.len() - i,
    {
        let d = token[i];
        if d < 48 || d > 57 {
            proof {
                assert(body[i - idx] == d);
                assert(!spec_all_digits(body));
            }
            return None;
        }
        let dv: usize = (d - 48) as usize;
        proof {
            assert(body.take(i - idx + 1).drop_last() =~= body.take(i - idx));
            assert(body.take(i - idx + 1).last() == body[i - idx]);
        }
        if acc > (usize::MAX - dv) / 10 {
            proof {
                assert(acc * 10 + dv > usize::MAX) by (nonlinear_arith)
                    requires
                        acc > (usize::MAX - dv) / 10,
                        dv <= usize::MAX,
                        acc >= 0,
                {}
                assert(digits_val(body.take(i - idx + 1)) == acc * 10 + dv);
                if spec_all_digits(body) {
                    lemma_digits_val_prefix_le(body, i - idx + 1, body.len() as int);
                    assert(body.take(body.len() as int) =~= body);
                }
            }
            return None;
        }
        proof {
            assert(acc * 10 + dv <= usize::MAX) by (nonlinear_arith)
                requires
                    acc <= (usize::MAX - dv) / 10,
                    dv <= usize::MAX,
                    acc >= 0,
            {}
        }
        acc = acc * 10 + dv;
        i = i + 1;
    }
    proof {
        assert(body.take(body.len() as int) =~= body);
        assert(spec_all_digits(body));
        assert(body.len() > 0);
    }
    Some(acc)
}

} // verus!
