//! Quote-aware string splitting shared by command parsing and expression
//! parsing: whitespace-trimmed splitting on a character that ignores splitter
//! occurrences inside double quotes, a split-once helper that strips symmetric
//! quotes, and operator-boundary splitting that tries longer operators first.

use vstd::prelude::*;
use vstd::string::StrSliceExecFns;

verus! {

/// The whitespace characters that trimming removes.
pub open spec fn is_space_char(c: char) -> bool {
    c == ' ' || c == '\t' || c == '\n' || c == '\r'
}

pub open spec fn trim_front_model(s: Seq<char>) -> Seq<char>
    decreases s.len(),
{
    if s.len() > 0 && is_space_char(s[0]) {
        trim_front_model(s.drop_first())
    } else {
        s
    }
}

pub open spec fn trim_back_model(s: Seq<char>) -> Seq<char>
    decreases s.len(),
{
    if s.len() > 0 && is_space_char(s.last()) {
        trim_back_model(s.drop_last())
    } else {
        s
    }
}

/// What `trim` leaves: the text with leading and trailing whitespace removed.
pub open spec fn trim_model(s: Seq<char>) -> Seq<char> {
    trim_back_model(trim_front_model(s))
}

fn is_space(c: char) -> (r: bool)
    ensures
        r == is_space_char(c),
{
    c == ' ' || c == '\t' || c == '\n' || c == '\r'
}

proof fn lemma_trim_front_skip(s: Seq<char>, k: int)
    requires
        0 <= k <= s.len(),
        forall|j: int| 0 <= j < k ==> is_space_char(s[j]),
    ensures
        trim_front_model(s) == trim_front_model(s.skip(k)),
    decreases k,
{
    if k > 0 {
        assert(s.drop_first() =~= s.skip(1));
        lemma_trim_front_skip(s.skip(1), k - 1);
        assert(s.skip(1).skip(k - 1) =~= s.skip(k));
    } else {
        assert(s.skip(0) =~= s);
    }
}

proof fn lemma_trim_back_keep(s: Seq<char>, k: int)
    requires
        0 <= k <= s.len(),
        forall|j: int| k <= j < s.len() ==> is_space_char(s[j]),
    ensures
        trim_back_model(s) == trim_back_model(s.take(k)),
    decreases s.len() - k,
{
    if k < s.len() {
        assert(s.drop_last() =~= s.take(s.len() - 1));
        lemma_trim_back_keep(s.take(s.len() - 1), k);
        assert(s.take(s.len() - 1).take(k) =~= s.take(k));
    } else {
        assert(s.take(s.len() as int) =~= s);
    }
}

/// After `trim_front_model` the first character, if any, is not whitespace.
proof fn lemma_trim_front_no_space(s: Seq<char>)
    ensures
        trim_front_model(s).len() > 0 ==> !is_space_char(trim_front_model(s)[0]),
        trim_front_model(s).len() <= s.len(),
    decreases s.len(),
{
    if s.len() > 0 && is_space_char(s[0]) {
        lemma_trim_front_no_space(s.drop_first());
    }
}

/// After `trim_back_model` the last character, if any, is not whitespace,
/// and the first character is unchanged.
proof fn lemma_trim_back_no_space(s: Seq<char>)
    ensures
        trim_back_model(s).len() > 0 ==> !is_space_char(trim_back_model(s).last()),
        trim_back_model(s).len() <= s.len(),
        trim_back_model(s).len() > 0 ==> trim_back_model(s)[0] == s[0],
    decreases s.len(),
{
    if s.len() > 0 && is_space_char(s.last()) {
        lemma_trim_back_no_space(s.drop_last());
    }
}

/// Remove leading and trailing whitespace, as a subslice of the input.
pub fn trim_str<'a>(s: &'a str) -> (r: &'a str)
    ensures
        r@ == trim_model(s@),
{
    let n = s.unicode_len();
    let mut start: usize = 0;
    while start < n && is_space(s.get_char(start))
        invariant
            0 <= start <= n,
            n == s@.len(),
            forall|j: int| 0 <= j < start ==> is_space_char(s@[j]),
        decreases n - start,
    {
        start += 1;
    }
    let mut end: usize = n;
    while end > start && is_space(s.get_char(end - 1))
        invariant
            start <= end <= n,
            n == s@.len(),
            forall|j: int| end <= j < n ==> is_space_char(s@[j]),
        decreases end,
    {
        end -= 1;
    }
    proof {
        lemma_trim_front_skip(s@, start as int);
        let rest = s@.skip(start as int);
        assert(trim_front_model(rest) == rest);
        lemma_trim_back_keep(rest, end - start);
        assert(rest.take(end - start) =~= s@.subrange(start as int, end as int));
        assert(trim_back_model(s@.subrange(start as int, end as int)) =~= s@.subrange(
            start as int,
            end as int,
        ));
    }
    s.substring_char(start, end)
}

/// A trimmed text neither starts nor ends with whitespace.
pub proof fn lemma_trim_ends(s: Seq<char>)
    ensures
        trim_model(s).len() > 0 ==> !is_space_char(trim_model(s)[0]),
        trim_model(s).len() > 0 ==> !is_space_char(trim_model(s).last()),
{
    lemma_trim_front_no_space(s);
    lemma_trim_back_no_space(trim_front_model(s));
}

/// Trimming does nothing to a text that neither starts nor ends with
/// whitespace.
pub proof fn lemma_trim_of_clean(s: Seq<char>)
    requires
        s.len() > 0,
        !is_space_char(s[0]),
        !is_space_char(s.last()),
    ensures
        trim_model(s) == s,
{
}

proof fn lemma_find_single_from(s: Seq<char>, c: char, k: int, j: int)
    requires
        0 <= j <= k < s.len(),
        forall|m: int| j <= m < k ==> s[m] != c,
        s[k] == c,
    ensures
        find_sub_from(s, seq![c], j) == Some(k),
    decreases k - j,
{
    if j == k {
        assert(s.subrange(k, k + 1) =~= seq![c]);
    } else {
        assert(s.subrange(j, j + 1) =~= seq![s[j]]);
        assert(s.subrange(j, j + 1) != seq![c]) by {
            assert(seq![s[j]][0] != seq![c][0]);
        }
        lemma_find_single_from(s, c, k, j + 1);
    }
}

/// Where the first occurrence of a single character lies.
pub proof fn lemma_find_single(s: Seq<char>, c: char, k: int)
    requires
        0 <= k < s.len(),
        forall|m: int| 0 <= m < k ==> s[m] != c,
        s[k] == c,
    ensures
        find_sub_model(s, seq![c]) == Some(k),
{
    lemma_find_single_from(s, c, k, 0);
}

/// What a successful substring search guarantees about its position.
pub proof fn lemma_find_sub_props(s: Seq<char>, p: Seq<char>)
    ensures
        find_sub_model(s, p) matches Some(i) ==> 0 <= i && i + p.len() <= s.len() && s.subrange(
            i,
            i + p.len(),
        ) == p,
{
    lemma_find_sub_props_from(s, p, 0);
}

proof fn lemma_find_sub_props_from(s: Seq<char>, p: Seq<char>, j: int)
    requires
        0 <= j,
    ensures
        find_sub_from(s, p, j) matches Some(i) ==> j <= i && i + p.len() <= s.len() && s.subrange(
            i,
            i + p.len(),
        ) == p,
    decreases s.len() - j + 1,
{
    if j + p.len() <= s.len() && s.subrange(j, j + p.len()) != p {
        lemma_find_sub_props_from(s, p, j + 1);
    }
}

/// Character-sequence equality of two string slices.
pub fn str_eq(a: &str, b: &str) -> (r: bool)
    ensures
        r == (a@ == b@),
{
    let n = a.unicode_len();
    let m = b.unicode_len();
    if n != m {
        return false;
    }
    let mut i: usize = 0;
    while i < n
        invariant
            0 <= i <= n,
            n == a@.len(),
            n == b@.len(),
            forall|j: int| 0 <= j < i ==> a@[j] == b@[j],
        decreases n - i,
    {
        if a.get_char(i) != b.get_char(i) {
            return false;
        }
        i += 1;
    }
    proof {
        assert(a@ =~= b@);
    }
    true
}

/// The pattern `p` occurs in `s` at position `i`.
pub open spec fn is_match_at(s: Seq<char>, p: Seq<char>, i: int) -> bool {
    0 <= i && i + p.len() <= s.len() && s.subrange(i, i + p.len()) == p
}

pub open spec fn find_sub_from(s: Seq<char>, p: Seq<char>, i: int) -> Option<int>
    decreases s.len() - i + 1,
{
    if i < 0 || i + p.len() > s.len() {
        None
    } else if s.subrange(i, i + p.len()) == p {
        Some(i)
    } else {
        find_sub_from(s, p, i + 1)
    }
}

/// Position of the first occurrence of `p` in `s`, if any.
pub open spec fn find_sub_model(s: Seq<char>, p: Seq<char>) -> Option<int> {
    find_sub_from(s, p, 0)
}

fn match_at(s: &str, n: usize, p: &str, m: usize, i: usize) -> (r: bool)
    requires
        n == s@.len(),
        m == p@.len(),
        i + m <= n,
    ensures
        r == is_match_at(s@, p@, i as int),
{
    let mut j: usize = 0;
    while j < m
        invariant
            0 <= j <= m,
            n == s@.len(),
            m == p@.len(),
            i + m <= n,
            forall|k: int| 0 <= k < j ==> s@[i + k] == p@[k],
        decreases m - j,
    {
        if s.get_char(i + j) != p.get_char(j) {
            proof {
                assert(s@.subrange(i as int, i + m)[j as int] == s@[i + j]);
            }
            return false;
        }
        j += 1;
    }
    proof {
        assert(s@.subrange(i as int, i + m) =~= p@);
    }
    true
}

/// Split at the first occurrence of the (non-empty) pattern, if there is one.
pub fn split_once_str<'a>(s: &'a str, pat: &str) -> (r: Option<(&'a str, &'a str)>)
    requires
        pat@.len() > 0,
    ensures
        match r {
            Some((left, right)) => {
                &&& find_sub_model(s@, pat@) matches Some(i) && left@ == s@.subrange(0, i)
                    && right@ == s@.subrange(i + pat@.len(), s@.len() as int)
            },
            None => find_sub_model(s@, pat@) is None,
        },
{
    let n = s.unicode_len();
    let m = pat.unicode_len();
    if m > n {
        return None;
    }
    let mut i: usize = 0;
    while i <= n - m
        invariant
            0 <= i <= n - m + 1,
            m <= n,
            n == s@.len(),
            m == pat@.len(),
            m > 0,
            find_sub_model(s@, pat@) == find_sub_from(s@, pat@, i as int),
        decreases n - i,
    {
        if match_at(s, n, pat, m, i) {
            return Some((s.substring_char(0, i), s.substring_char(i + m, n)));
        }
        i += 1;
    }
    None
}

pub open spec fn piece_tokens(piece: Seq<char>) -> Seq<Seq<char>> {
    if trim_model(piece).len() > 0 {
        seq![trim_model(piece)]
    } else {
        seq![]
    }
}

pub open spec fn split_quoted_rec(s: Seq<char>, c: char, i: int, start: int, inq: bool) -> Seq<
    Seq<char>,
>
    decreases s.len() - i,
{
    if i < 0 || i >= s.len() || start < 0 {
        piece_tokens(s.subrange(start, s.len() as int))
    } else if s[i] == '"' {
        split_quoted_rec(s, c, i + 1, start, !inq)
    } else if s[i] == c && !inq {
        piece_tokens(s.subrange(start, i)) + split_quoted_rec(s, c, i + 1, i + 1, inq)
    } else {
        split_quoted_rec(s, c, i + 1, start, inq)
    }
}

/// Split on `splitter`, except inside double quotes; every piece is trimmed
/// and empty pieces are dropped.
pub open spec fn split_quoted_model(s: Seq<char>, splitter: char) -> Seq<Seq<char>> {
    split_quoted_rec(s, splitter, 0, 0, false)
}

pub open spec fn str_views(v: Seq<&str>) -> Seq<Seq<char>> {
    v.map_values(|t: &str| t@)
}

/// Split `input` at each `splitter` that stands outside double quotes; trim
/// each piece and drop the empty ones. Quote characters toggle quoting but
/// stay part of the piece.
pub fn split_preserving_quote_insides<'a>(input: &'a str, splitter: char) -> (result: Vec<&'a str>)
    ensures
        str_views(result@) == split_quoted_model(input@, splitter),
{
    let n = input.unicode_len();
    let mut result: Vec<&'a str> = Vec::new();
    let mut start: usize = 0;
    let mut in_quotes: bool = false;
    let mut i: usize = 0;
    while i < n
        invariant
            0 <= start <= i <= n,
            n == input@.len(),
            split_quoted_model(input@, splitter) == str_views(result@) + split_quoted_rec(
                input@,
                splitter,
                i as int,
                start as int,
                in_quotes,
            ),
        decreases n - i,
    {
        let c = input.get_char(i);
        let ghost prev = result@;
        if c == '"' {
            in_quotes = !in_quotes;
        } else if c == splitter && !in_quotes {
            let piece = trim_str(input.substring_char(start, i));
            if piece.unicode_len() > 0 {
                result.push(piece);
                proof {
                    assert(str_views(result@) =~= str_views(prev) + seq![piece@]);
                }
            }
            start = i + 1;
        }
        proof {
            assert(str_views(result@) + split_quoted_rec(
                input@,
                splitter,
                i + 1,
                start as int,
                in_quotes,
            ) =~= split_quoted_model(input@, splitter));
        }
        i += 1;
    }
    let piece = trim_str(input.substring_char(start, n));
    let ghost prev = result@;
    if piece.unicode_len() > 0 {
        result.push(piece);
        proof {
            assert(str_views(result@) =~= str_views(prev) + seq![piece@]);
        }
    }
    proof {
        assert(str_views(result@) =~= split_quoted_model(input@, splitter));
    }
    result
}

/// Strip one symmetric pair of surrounding double quotes, if present.
pub open spec fn strip_quotes_model(s: Seq<char>) -> Seq<char> {
    if s.len() >= 2 && s[0] == '"' && s.last() == '"' {
        s.subrange(1, s.len() - 1)
    } else {
        s
    }
}

fn strip_quotes<'a>(s: &'a str) -> (r: &'a str)
    ensures
        r@ == strip_quotes_model(s@),
{
    let n = s.unicode_len();
    if n >= 2 && s.get_char(0) == '"' && s.get_char(n - 1) == '"' {
        s.substring_char(1, n - 1)
    } else {
        s
    }
}

/// Split at the first `splitter` anywhere in the text, trim both halves and
/// strip one pair of surrounding quotes from each.
pub open spec fn split_once_skipping_model(s: Seq<char>, c: char) -> Option<(Seq<char>, Seq<char>)> {
    match find_sub_model(s, seq![c]) {
        Some(i) => Some(
            (
                strip_quotes_model(trim_model(s.subrange(0, i))),
                strip_quotes_model(trim_model(s.subrange(i + 1, s.len() as int))),
            ),
        ),
        None => None,
    }
}

/// Split at the first occurrence of `splitter` (quotes do not hide it), then
/// trim each half and strip a symmetric pair of surrounding double quotes.
pub fn split_once_skipping_outside_quotes<'a>(input: &'a str, splitter: char) -> (r: Option<
    (&'a str, &'a str),
>)
    ensures
        match r {
            Some((left, right)) => split_once_skipping_model(input@, splitter) matches Some(pair)
                && pair.0 == left@ && pair.1 == right@,
            None => split_once_skipping_model(input@, splitter) is None,
        },
{
    let mut buf = String::new();
    buf.push(splitter);
    let found = split_once_str(input, buf.as_str());
    proof {
        assert(buf@ =~= seq![splitter]);
    }
    match found {
        Some((left, right)) => Some((strip_quotes(trim_str(left)), strip_quotes(trim_str(right)))),
        None => None,
    }
}

pub open spec fn split_plain_rec(s: Seq<char>, c: char, i: int, start: int) -> Seq<Seq<char>>
    decreases s.len() - i,
{
    if i < 0 || start < 0 || i >= s.len() {
        seq![s.subrange(start, s.len() as int)]
    } else if s[i] == c {
        seq![s.subrange(start, i)] + split_plain_rec(s, c, i + 1, i + 1)
    } else {
        split_plain_rec(s, c, i + 1, start)
    }
}

/// Split at every occurrence of the character, keeping empty pieces, exactly
/// as `str::split` does; there is always at least one piece.
pub open spec fn split_plain_model(s: Seq<char>, c: char) -> Seq<Seq<char>> {
    split_plain_rec(s, c, 0, 0)
}

/// Split at every occurrence of `splitter`, keeping empty pieces.
pub fn split_plain<'a>(input: &'a str, splitter: char) -> (result: Vec<&'a str>)
    ensures
        str_views(result@) == split_plain_model(input@, splitter),
{
    let n = input.unicode_len();
    let mut result: Vec<&'a str> = Vec::new();
    let mut start: usize = 0;
    let mut i: usize = 0;
    while i < n
        invariant
            0 <= start <= i <= n,
            n == input@.len(),
            split_plain_model(input@, splitter) == str_views(result@) + split_plain_rec(
                input@,
                splitter,
                i as int,
                start as int,
            ),
        decreases n - i,
    {
        let ghost prev = result@;
        if input.get_char(i) == splitter {
            result.push(input.substring_char(start, i));
            proof {
                assert(str_views(result@) =~= str_views(prev) + seq![
                    input@.subrange(start as int, i as int),
                ]);
            }
            start = i + 1;
        }
        proof {
            assert(str_views(result@) + split_plain_rec(
                input@,
                splitter,
                i + 1,
                start as int,
            ) =~= split_plain_model(input@, splitter));
        }
        i += 1;
    }
    let ghost prev = result@;
    result.push(input.substring_char(start, n));
    proof {
        assert(str_views(result@) =~= str_views(prev) + seq![
            input@.subrange(start as int, n as int),
        ]);
        assert(str_views(result@) =~= split_plain_model(input@, splitter));
    }
    result
}

/// The first operator in `ops` (in list order) that occurs in `s` at `i`.
pub open spec fn op_match_at(s: Seq<char>, ops: Seq<Seq<char>>, i: int) -> Option<Seq<char>>
    decreases ops.len(),
{
    if ops.len() == 0 {
        None
    } else if is_match_at(s, ops[0], i) {
        Some(ops[0])
    } else {
        op_match_at(s, ops.drop_first(), i)
    }
}

pub open spec fn split_ops_rec(s: Seq<char>, ops: Seq<Seq<char>>, i: int, start: int, inq: bool) -> Seq<
    Seq<char>,
>
    decreases s.len() - i,
{
    if i < 0 || i >= s.len() || start < 0 {
        piece_tokens(s.subrange(start, s.len() as int))
    } else if s[i] == '"' {
        split_ops_rec(s, ops, i + 1, start, !inq)
    } else if !inq {
        match op_match_at(s, ops, i) {
            Some(op) => if op.len() > 0 && i + op.len() <= s.len() {
                piece_tokens(s.subrange(start, i)) + seq![op] + split_ops_rec(
                    s,
                    ops,
                    i + op.len(),
                    i + op.len(),
                    inq,
                )
            } else {
                split_ops_rec(s, ops, i + 1, start, inq)
            },
            None => split_ops_rec(s, ops, i + 1, start, inq),
        }
    } else {
        split_ops_rec(s, ops, i + 1, start, inq)
    }
}

/// Cut the text at every operator occurrence outside quotes, emitting the
/// operators themselves as tokens and the trimmed non-empty stretches between
/// them; operators earlier in the list win, so longer ones must come first.
pub open spec fn split_ops_model(s: Seq<char>, ops: Seq<Seq<char>>) -> Seq<Seq<char>> {
    split_ops_rec(s, ops, 0, 0, false)
}

fn find_op_at<'b>(input: &str, n: usize, operators: &[&'b str], i: usize) -> (r: Option<&'b str>)
    requires
        n == input@.len(),
        i < n,
        forall|k: int| 0 <= k < operators@.len() ==> (#[trigger] operators@[k])@.len() > 0,
    ensures
        match r {
            Some(op) => op_match_at(input@, str_views(operators@), i as int) == Some(op@)
                && op@.len() > 0 && is_match_at(input@, op@, i as int),
            None => op_match_at(input@, str_views(operators@), i as int) is None,
        },
{
    let mut k: usize = 0;
    let ghost ops = str_views(operators@);
    proof {
        assert(ops.skip(0) =~= ops);
    }
    while k < operators.len()
        invariant
            0 <= k <= operators.len(),
            n == input@.len(),
            i < n,
            ops == str_views(operators@),
            forall|j: int| 0 <= j < operators@.len() ==> (#[trigger] operators@[j])@.len() > 0,
            op_match_at(input@, ops, i as int) == op_match_at(
                input@,
                ops.skip(k as int),
                i as int,
            ),
        decreases operators.len() - k,
    {
        let op = operators[k];
        let m = op.unicode_len();
        proof {
            assert(ops.skip(k as int)[0] == op@);
            assert(ops.skip(k as int).drop_first() =~= ops.skip(k + 1));
        }
        if m <= n - i && match_at(input, n, op, m, i) {
            return Some(op);
        }
        proof {
            if !(m <= n - i) {
                assert(!is_match_at(input@, op@, i as int));
            }
        }
        k += 1;
    }
    proof {
        assert(ops.skip(operators@.len() as int) =~= Seq::<Seq<char>>::empty());
    }
    None
}

/// Split out every operator occurrence standing outside double quotes; the
/// pieces between operators are trimmed and dropped when empty, while the
/// operators are kept verbatim. Operators earlier in the list take precedence
/// at each position, so longer operators must be listed before their prefixes.
pub fn split_by_operators_preserving_quotes<'a>(input: &'a str, operators: &[&str]) -> (result: Vec<
    &'a str,
>)
    requires
        forall|k: int| 0 <= k < operators@.len() ==> (#[trigger] operators@[k])@.len() > 0,
    ensures
        str_views(result@) == split_ops_model(input@, str_views(operators@)),
{
    let n = input.unicode_len();
    let ghost ops = str_views(operators@);
    let mut result: Vec<&'a str> = Vec::new();
    let mut start: usize = 0;
    let mut in_quotes: bool = false;
    let mut i: usize = 0;
    while i < n
        invariant
            0 <= start <= i <= n + 1,
            i <= n,
            n == input@.len(),
            ops == str_views(operators@),
            forall|k: int| 0 <= k < operators@.len() ==> (#[trigger] operators@[k])@.len() > 0,
            split_ops_model(input@, ops) == str_views(result@) + split_ops_rec(
                input@,
                ops,
                i as int,
                start as int,
                in_quotes,
            ),
        decreases n - i,
    {
        let c = input.get_char(i);
        let ghost prev = result@;
        if c == '"' {
            in_quotes = !in_quotes;
            i += 1;
        } else if !in_quotes {
            match find_op_at(input, n, operators, i) {
                Some(op) => {
                    let m = op.unicode_len();
                    proof {
                        assert(is_match_at(input@, op@, i as int));
                    }
                    let piece = trim_str(input.substring_char(start, i));
                    if piece.unicode_len() > 0 {
                        result.push(piece);
                    }
                    let op_slice = input.substring_char(i, i + m);
                    proof {
                        assert(op_slice@ =~= op@);
                    }
                    result.push(op_slice);
                    proof {
                        if trim_model(input@.subrange(start as int, i as int)).len() > 0 {
                            assert(str_views(result@) =~= str_views(prev) + seq![piece@] + seq![
                                op@,
                            ]);
                        } else {
                            assert(str_views(result@) =~= str_views(prev) + seq![op@]);
                        }
                    }
                    i += m;
                    start = i;
                },
                None => {
                    i += 1;
                },
            }
        } else {
            i += 1;
        }
        proof {
            assert(str_views(result@) + split_ops_rec(
                input@,
                ops,
                i as int,
                start as int,
                in_quotes,
            ) =~= split_ops_model(input@, ops));
        }
    }
    let piece = trim_str(input.substring_char(start, n));
    let ghost prev = result@;
    if piece.unicode_len() > 0 {
        result.push(piece);
        proof {
            assert(str_views(result@) =~= str_views(prev) + seq![piece@]);
        }
    }
    proof {
        assert(str_views(result@) =~= split_ops_model(input@, ops));
    }
    result
}

} // verus!
