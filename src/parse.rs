use vstd::prelude::*;

verus! {

/// What `usize::from_str` makes of the string spelled by `s`.
pub uninterp spec fn usize_parse(s: Seq<char>) -> Option<usize>;

/// `i` is the position of the first `sep` in `s`.
pub open spec fn is_first(s: Seq<char>, sep: char, i: int) -> bool {
    &&& 0 <= i < s.len()
    &&& s[i] == sep
    &&& forall|j: int| 0 <= j < i ==> s[j] != sep
}

/// Both sides of a split, or nothing when either side does not parse.
pub open spec fn both(l: Option<usize>, r: Option<usize>) -> Option<(usize, usize)> {
    match (l, r) {
        (Some(a), Some(b)) => Some((a, b)),
        _ => None,
    }
}

/// The pair that `s` spells around its first `sep`: the text before it and
/// the text after it, each read as a number.
pub open spec fn parsed_pair(s: Seq<char>, sep: char) -> Option<(usize, usize)> {
    if exists|i: int| is_first(s, sep, i) {
        let i = choose|i: int| is_first(s, sep, i);
        both(usize_parse(s.take(i)), usize_parse(s.skip(i + 1)))
    } else {
        None
    }
}

/// Relies on `str::chars`: the characters of the string, in order.
#[verifier::external_body]
fn chars_of(s: &str) -> (r: Vec<char>)
    ensures
        r@ == s@,
{
    s.chars().collect()
}

/// Relies on `usize::from_str`, applied to the string that `cs` spells; an
/// empty string is an error.
#[verifier::external_body]
fn parse_usize(cs: &[char]) -> (r: Option<usize>)
    ensures
        r == usize_parse(cs@),
        cs@.len() == 0 ==> r is None,
{
    cs.iter().collect::<String>().parse::<usize>().ok()
}

proof fn lemma_first_unique(s: Seq<char>, sep: char, i: int, j: int)
    requires
        is_first(s, sep, i),
        is_first(s, sep, j),
    ensures
        i == j,
{
    if i < j {
        assert(s[i] != sep);
    } else if j < i {
        assert(s[j] != sep);
    }
}

/// The position of the first `sep` in `cs`, if there is one.
pub fn find_char(cs: &[char], sep: char) -> (r: Option<usize>)
    ensures
        r is None <==> !cs@.contains(sep),
        r matches Some(i) ==> is_first(cs@, sep, i as int),
{
    let mut i: usize = 0;
    while i < cs.len()
        invariant
            i <= cs@.len(),
            forall|j: int| 0 <= j < i ==> cs@[j] != sep,
        decreases cs@.len() - i,
    {
        if cs[i] == sep {
            return Some(i);
        }
        i = i + 1;
    }
    None
}

/// Copies the characters of `cs` in `[from, to)`.
fn slice_chars(cs: &[char], from: usize, to: usize) -> (r: Vec<char>)
    requires
        from <= to <= cs@.len(),
    ensures
        r@ == cs@.subrange(from as int, to as int),
{
    let mut r: Vec<char> = Vec::new();
    let mut i: usize = from;
    while i < to
        invariant
            from <= i <= to <= cs@.len(),
            r@ == cs@.subrange(from as int, i as int),
        decreases to - i,
    {
        r.push(cs[i]);
        i = i + 1;
    }
    r
}

/// Splits `s` at the first `separator` and reads both sides as numbers.
/// There is no result when the separator is absent or when either side
/// does not parse; later separators are never tried.
pub fn parse_pair(s: &str, separator: char) -> (r: Option<(usize, usize)>)
    ensures
        r == parsed_pair(s@, separator),
        !s@.contains(separator) ==> r is None,
        forall|i: int| #[trigger]
            is_first(s@, separator, i) ==> r == both(
                usize_parse(s@.take(i)),
                usize_parse(s@.skip(i + 1)),
            ),
{
    let cs = chars_of(s);
    let sl = cs.as_slice();
    assert(sl@ == s@);
    match find_char(sl, separator) {
        None => {
            assert(!exists|i: int| is_first(s@, separator, i));
            None
        },
        Some(index) => {
            assert(is_first(sl@, separator, index as int));
            let n = sl.len();
            assert(index < n);
            let left = slice_chars(sl, 0, index);
            let right = slice_chars(sl, index + 1, n);
            assert(left@ == s@.take(index as int));
            assert(right@ == s@.skip(index + 1));
            let l = parse_usize(left.as_slice());
            let r = parse_usize(right.as_slice());
            proof {
                let c = choose|i: int| is_first(s@, separator, i);
                lemma_first_unique(s@, separator, c, index as int);
                assert forall|i: int| #[trigger] is_first(s@, separator, i) implies i == index by {
                    lemma_first_unique(s@, separator, i, index as int);
                }
            }
            match (l, r) {
                (Some(a), Some(b)) => Some((a, b)),
                _ => None,
            }
        },
    }
}

/// Joining two numbers' spellings around a separator that neither holds
/// gives back the two numbers.
pub proof fn lemma_parse_joined(a: Seq<char>, b: Seq<char>, sep: char)
    requires
        !a.contains(sep),
        !b.contains(sep),
        usize_parse(a) is Some,
        usize_parse(b) is Some,
    ensures
        parsed_pair(a + seq![sep] + b, sep) == Some(
            (usize_parse(a)->Some_0, usize_parse(b)->Some_0),
        ),
{
    let s = a + seq![sep] + b;
    let n = a.len() as int;
    assert(s[n] == sep);
    assert forall|j: int| 0 <= j < n implies s[j] != sep by {
        assert(s[j] == a[j]);
    }
    assert(is_first(s, sep, n));
    let c = choose|i: int| is_first(s, sep, i);
    lemma_first_unique(s, sep, c, n);
    assert(s.take(n) =~= a);
    assert(s.skip(n + 1) =~= b);
}

/// With no separator in the text, or a side that does not parse, there is
/// no pair.
pub proof fn lemma_parse_fails(s: Seq<char>, sep: char)
    ensures
        !s.contains(sep) ==> parsed_pair(s, sep) is None,
        forall|i: int|
            #![trigger is_first(s, sep, i)]
            is_first(s, sep, i) && (usize_parse(s.take(i)) is None || usize_parse(s.skip(i + 1)) is None)
                ==> parsed_pair(s, sep) is None,
{
    assert forall|i: int|
        #![trigger is_first(s, sep, i)]
        is_first(s, sep, i) && (usize_parse(s.take(i)) is None || usize_parse(s.skip(i + 1)) is None)
            implies parsed_pair(s, sep) is None by {
        let c = choose|k: int| is_first(s, sep, k);
        lemma_first_unique(s, sep, c, i);
    }
}

} // verus!
