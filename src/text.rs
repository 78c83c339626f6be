use vstd::prelude::*;

verus! {

broadcast use vstd::string::group_string_axioms;

/// The characters of `s`, in order.
pub fn chars_of(s: &str) -> (r: Vec<char>)
    ensures
        r@ == s@,
{
    let mut r: Vec<char> = Vec::new();
    for c in it: s.chars()
        invariant
            r@ == it.seq().take(it.index() as int),
    {
        r.push(c);
    }
    r
}

} // verus!

verus! {

/// The token that separates commands inside one message.
pub open spec fn delimiter() -> Seq<char> {
    seq!['<', 'N', 'L', '>']
}

/// `s` begins with the delimiter.
pub open spec fn starts_with_delimiter(s: Seq<char>) -> bool {
    s.len() >= 4 && s.take(4) == delimiter()
}

/// The pieces of `s` between delimiters, read from the front.
pub open spec fn split_segments(s: Seq<char>) -> Seq<Seq<char>>
    decreases s.len(),
{
    if s.len() == 0 {
        seq![Seq::<char>::empty()]
    } else if starts_with_delimiter(s) {
        seq![Seq::<char>::empty()] + split_segments(s.skip(4))
    } else {
        let rest = split_segments(s.skip(1));
        rest.update(0, seq![s[0]] + rest[0])
    }
}

/// `segs` with `p` put in front of its first piece.
pub open spec fn with_prefix(p: Seq<char>, segs: Seq<Seq<char>>) -> Seq<Seq<char>> {
    segs.update(0, p + segs[0])
}

proof fn lemma_split_nonempty(s: Seq<char>)
    ensures
        split_segments(s).len() >= 1,
    decreases s.len(),
{
    if s.len() > 0 {
        if starts_with_delimiter(s) {
            lemma_split_nonempty(s.skip(4));
        } else {
            lemma_split_nonempty(s.skip(1));
        }
    }
}

/// Cuts `s` at every delimiter; there is always one piece more than delimiters.
pub fn split_on_delimiter(s: &str) -> (r: Vec<String>)
    ensures
        r@.map_values(|x: String| x@) == split_segments(s@),
{
    let v = chars_of(s);
    let n = v.len();
    let mut r: Vec<String> = Vec::new();
    let mut start: usize = 0;
    let mut i: usize = 0;
    proof {
        lemma_split_nonempty(s@);
        assert(s@.skip(0) =~= s@);
        assert(s@.subrange(0, 0) =~= Seq::<char>::empty());
        assert(with_prefix(Seq::<char>::empty(), split_segments(s@)) =~= split_segments(s@));
        assert(r@.map_values(|x: String| x@) =~= Seq::<Seq<char>>::empty());
    }
    while i < n
        invariant
            v@ == s@,
            n == v.len(),
            start <= i <= n,
            split_segments(s@) == r@.map_values(|x: String| x@) + with_prefix(
                s@.subrange(start as int, i as int),
                split_segments(s@.skip(i as int)),
            ),
        decreases n - i,
    {
        let ghost p = s@.subrange(start as int, i as int);
        let ghost t = s@.skip(i as int);
        proof {
            lemma_split_nonempty(t);
        }
        if n - i >= 4 && v[i] == '<' && v[i + 1] == 'N' && v[i + 2] == 'L' && v[i + 3] == '>' {
            let piece = s.substring_char(start, i).to_string();
            let ghost old_r = r@.map_values(|x: String| x@);
            r.push(piece);
            proof {
                assert(t.take(4) =~= delimiter());
                assert(t.skip(4) =~= s@.skip(i + 4));
                assert(s@.subrange(i + 4, i + 4) =~= Seq::<char>::empty());
                assert(r@.map_values(|x: String| x@) =~= old_r.push(p));
                let rest = split_segments(t.skip(4));
                lemma_split_nonempty(t.skip(4));
                assert(with_prefix(p, split_segments(t)) =~= seq![p] + rest);
                assert(with_prefix(Seq::<char>::empty(), rest) =~= rest);
                assert(old_r + with_prefix(p, split_segments(t)) =~= old_r.push(p) + rest);
            }
            i = i + 4;
            start = i;
        } else {
            proof {
                if starts_with_delimiter(t) {
                    assert(t.take(4)[0] == '<' && t.take(4)[1] == 'N' && t.take(4)[2] == 'L'
                        && t.take(4)[3] == '>');
                }
                assert(t.skip(1) =~= s@.skip(i + 1));
                let rest = split_segments(t.skip(1));
                lemma_split_nonempty(t.skip(1));
                assert(s@.subrange(start as int, i + 1) =~= p + seq![t[0]]);
                assert(split_segments(t) == rest.update(0, seq![t[0]] + rest[0]));
                assert(p + (seq![t[0]] + rest[0]) =~= (p + seq![t[0]]) + rest[0]);
                assert(with_prefix(p, split_segments(t)) =~= with_prefix(p + seq![t[0]], rest));
            }
            i = i + 1;
        }
    }
    let last = s.substring_char(start, n).to_string();
    let ghost old_r = r@.map_values(|x: String| x@);
    r.push(last);
    proof {
        assert(s@.skip(n as int) =~= Seq::<char>::empty());
        assert(r@.map_values(|x: String| x@) =~= old_r.push(last@));
        assert(with_prefix(last@, seq![Seq::<char>::empty()]) =~= seq![last@]);
    }
    r
}

} // verus!
