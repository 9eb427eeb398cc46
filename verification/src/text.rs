use vstd::prelude::*;
use vstd::string::StrSliceExecFns;
use vstd::string::StringExecFns;

verus! {

/// Whether `c` has the Unicode property White_Space (the definition that
/// `char::is_whitespace` and `str::trim` use).
pub open spec fn is_white_space(c: char) -> bool {
    let u = c as u32;
    ||| (0x9 <= u && u <= 0xd)
    ||| u == 0x20
    ||| u == 0x85
    ||| u == 0xa0
    ||| u == 0x1680
    ||| (0x2000 <= u && u <= 0x200a)
    ||| u == 0x2028
    ||| u == 0x2029
    ||| u == 0x202f
    ||| u == 0x205f
    ||| u == 0x3000
}

/// `s` without its leading white space.
pub open spec fn trim_start(s: Seq<char>) -> Seq<char>
    decreases s.len(),
{
    if s.len() > 0 && is_white_space(s[0]) {
        trim_start(s.drop_first())
    } else {
        s
    }
}

/// `s` without its trailing white space.
pub open spec fn trim_end(s: Seq<char>) -> Seq<char>
    decreases s.len(),
{
    if s.len() > 0 && is_white_space(s.last()) {
        trim_end(s.drop_last())
    } else {
        s
    }
}

/// `s` without leading and trailing white space, as `str::trim` gives it.
pub open spec fn trim(s: Seq<char>) -> Seq<char> {
    trim_end(trim_start(s))
}

/// Tests a character for Unicode White_Space.
pub fn is_white_space_char(c: char) -> (r: bool)
    ensures
        r == is_white_space(c),
{
    let u = c as u32;
    (0x9 <= u && u <= 0xd) || u == 0x20 || u == 0x85 || u == 0xa0 || u == 0x1680 || (0x2000 <= u
        && u <= 0x200a) || u == 0x2028 || u == 0x2029 || u == 0x202f || u == 0x205f || u == 0x3000
}

/// Skipping one leading white-space character leaves `trim_start` unchanged.
proof fn lemma_trim_start_step(s: Seq<char>, i: int)
    requires
        0 <= i < s.len(),
        is_white_space(s[i]),
    ensures
        trim_start(s.subrange(i, s.len() as int)) == trim_start(s.subrange(i + 1, s.len() as int)),
{
    assert(s.subrange(i, s.len() as int).drop_first() =~= s.subrange(i + 1, s.len() as int));
}

proof fn lemma_trim_end_step(s: Seq<char>, j: int)
    requires
        0 < j <= s.len(),
        is_white_space(s[j - 1]),
    ensures
        trim_end(s.subrange(0, j)) == trim_end(s.subrange(0, j - 1)),
{
    assert(s.subrange(0, j).drop_last() =~= s.subrange(0, j - 1));
}

/// Removes leading and trailing white space, as `str::trim` does.
pub fn trim_str(s: &str) -> (r: &str)
    ensures
        r@ == trim(s@),
{
    let n = s.unicode_len();
    let mut i: usize = 0;
    assert(s@.subrange(0, n as int) =~= s@);
    while i < n && is_white_space_char(s.get_char(i))
        invariant
            n == s@.len(),
            i <= n,
            trim_start(s@) == trim_start(s@.subrange(i as int, n as int)),
        decreases n - i,
    {
        proof {
            lemma_trim_start_step(s@, i as int);
        }
        i = i + 1;
    }
    let ghost rest = s@.subrange(i as int, n as int);
    assert(trim_start(rest) == rest) by {
        if rest.len() > 0 {
            assert(rest[0] == s@[i as int]);
        }
    }
    assert(trim_start(s@) == rest);
    let mut j: usize = n;
    assert(rest.subrange(0, (n - i) as int) =~= rest);
    while j > i && is_white_space_char(s.get_char(j - 1))
        invariant
            n == s@.len(),
            i <= j <= n,
            rest == s@.subrange(i as int, n as int),
            trim_end(rest) == trim_end(rest.subrange(0, j - i)),
        decreases j,
    {
        proof {
            assert(rest[j - 1 - i] == s@[j - 1]);
            lemma_trim_end_step(rest, (j - i) as int);
        }
        j = j - 1;
    }
    let ghost kept = rest.subrange(0, j - i);
    assert(trim_end(kept) == kept) by {
        if kept.len() > 0 {
            assert(kept.last() == s@[j - 1]);
        }
    }
    assert(rest.subrange(0, (n - i) as int) =~= rest);
    assert(kept =~= s@.subrange(i as int, j as int));
    s.substring_char(i, j)
}


/// The pieces of `s` between its commas, in order, as `str::split(',')`
/// yields them: one more piece than `s` has commas.
pub open spec fn split_commas(s: Seq<char>) -> Seq<Seq<char>>
    decreases s.len(),
{
    if s.len() == 0 {
        seq![Seq::<char>::empty()]
    } else {
        let pieces = split_commas(s.drop_last());
        if s.last() == ',' {
            pieces.push(Seq::<char>::empty())
        } else {
            pieces.update(pieces.len() - 1, pieces.last().push(s.last()))
        }
    }
}

/// The pieces, each trimmed, without those that trimming leaves empty.
pub open spec fn trimmed_nonempty(pieces: Seq<Seq<char>>) -> Seq<Seq<char>>
    decreases pieces.len(),
{
    if pieces.len() == 0 {
        Seq::<Seq<char>>::empty()
    } else {
        let rest = trimmed_nonempty(pieces.drop_last());
        let t = trim(pieces.last());
        if t.len() > 0 {
            rest.push(t)
        } else {
            rest
        }
    }
}

/// The fields of a comma-separated list: the pieces between commas,
/// trimmed, with the empty ones left out.
pub open spec fn csv_fields(s: Seq<char>) -> Seq<Seq<char>> {
    trimmed_nonempty(split_commas(s))
}

/// The items joined with a comma between each two.
pub open spec fn join_commas(items: Seq<Seq<char>>) -> Seq<char>
    decreases items.len(),
{
    if items.len() == 0 {
        Seq::<char>::empty()
    } else if items.len() == 1 {
        items[0]
    } else {
        join_commas(items.drop_last()) + seq![','] + items.last()
    }
}

/// The character views of a sequence of strings.
pub open spec fn strings_view(v: Seq<String>) -> Seq<Seq<char>> {
    v.map_values(|x: String| x@)
}

/// A field as a list keeps it: non-empty, without comma, and without
/// white space at either end.
pub open spec fn is_clean_field(f: Seq<char>) -> bool {
    &&& f.len() > 0
    &&& !f.contains(',')
    &&& trim(f) == f
}

pub proof fn lemma_split_commas_nonempty(s: Seq<char>)
    ensures
        split_commas(s).len() >= 1,
    decreases s.len(),
{
    if s.len() > 0 {
        lemma_split_commas_nonempty(s.drop_last());
    }
}

/// Splits `s` into its comma-separated fields, each trimmed, leaving out
/// the empty ones.
pub fn parse_csv(s: &str) -> (fields: Vec<String>)
    ensures
        strings_view(fields@) == csv_fields(s@),
{
    let n = s.unicode_len();
    let mut fields: Vec<String> = Vec::new();
    let mut start: usize = 0;
    let mut i: usize = 0;
    assert(s@.take(0) =~= Seq::<char>::empty());
    assert(split_commas(s@.take(0)).drop_last() =~= Seq::<Seq<char>>::empty());
    while i < n
        invariant
            n == s@.len(),
            start <= i <= n,
            split_commas(s@.take(i as int)).len() >= 1,
            split_commas(s@.take(i as int)).last() == s@.subrange(start as int, i as int),
            strings_view(fields@) == trimmed_nonempty(split_commas(s@.take(i as int)).drop_last()),
        decreases n - i,
    {
        let c = s.get_char(i);
        let ghost before = split_commas(s@.take(i as int));
        assert(s@.take(i + 1).drop_last() =~= s@.take(i as int));
        assert(s@.take(i + 1).last() == c);
        if c == ',' {
            let piece = s.substring_char(start, i);
            let t = trim_str(piece);
            assert(before.drop_last().push(before.last()) =~= before);
            assert(split_commas(s@.take(i + 1)).drop_last() =~= before);
            if t.unicode_len() > 0 {
                let ghost before_fields = fields@;
                fields.push(t.to_owned());
                assert(strings_view(fields@) =~= strings_view(before_fields).push(t@));
            }
            start = i + 1;
            assert(s@.subrange(start as int, i + 1) =~= Seq::<char>::empty());
        } else {
            assert(split_commas(s@.take(i + 1)).drop_last() =~= before.drop_last());
            assert(s@.subrange(start as int, i + 1) =~= s@.subrange(start as int, i as int).push(c));
        }
        i = i + 1;
    }
    assert(s@.take(n as int) =~= s@);
    let ghost all = split_commas(s@);
    assert(all.drop_last().push(all.last()) =~= all);
    let piece = s.substring_char(start, n);
    let t = trim_str(piece);
    if t.unicode_len() > 0 {
        let ghost before_fields = fields@;
        fields.push(t.to_owned());
        assert(strings_view(fields@) =~= strings_view(before_fields).push(t@));
    }
    fields
}

/// Joins the items with a comma between each two.
pub fn join_with_commas(items: &Vec<String>) -> (joined: String)
    ensures
        joined@ == join_commas(strings_view(items@)),
{
    let mut joined = String::new();
    let ghost all = strings_view(items@);
    let mut i: usize = 0;
    assert(all.take(0) =~= Seq::<Seq<char>>::empty());
    while i < items.len()
        invariant
            i <= items@.len(),
            all == strings_view(items@),
            joined@ == join_commas(all.take(i as int)),
        decreases items@.len() - i,
    {
        assert(all.take(i + 1).drop_last() =~= all.take(i as int));
        assert(all.take(i + 1).last() == items@[i as int]@);
        if i == 0 {
            joined.append(items[i].as_str());
            assert(joined@ =~= all.take(1)[0]);
        } else {
            joined.append(",");
            proof {
                reveal_strlit(",");
            }
            joined.append(items[i].as_str());
            assert(joined@ =~= join_commas(all.take(i as int)) + seq![','] + items@[i as int]@);
        }
        i = i + 1;
    }
    assert(all.take(items@.len() as int) =~= all);
    joined
}


proof fn lemma_trim_start_shape(s: Seq<char>) -> (k: int)
    ensures
        0 <= k <= s.len(),
        trim_start(s) == s.subrange(k, s.len() as int),
        trim_start(s).len() > 0 ==> !is_white_space(trim_start(s)[0]),
    decreases s.len(),
{
    if s.len() > 0 && is_white_space(s[0]) {
        let k0 = lemma_trim_start_shape(s.drop_first());
        assert(s.drop_first().subrange(k0, s.len() - 1) =~= s.subrange(k0 + 1, s.len() as int));
        k0 + 1
    } else {
        assert(s.subrange(0, s.len() as int) =~= s);
        0
    }
}

proof fn lemma_trim_end_shape(s: Seq<char>) -> (k: int)
    ensures
        0 <= k <= s.len(),
        trim_end(s) == s.subrange(0, k),
        trim_end(s).len() > 0 ==> !is_white_space(trim_end(s).last()),
    decreases s.len(),
{
    if s.len() > 0 && is_white_space(s.last()) {
        let k0 = lemma_trim_end_shape(s.drop_last());
        assert(s.drop_last().subrange(0, k0) =~= s.subrange(0, k0));
        k0
    } else {
        assert(s.subrange(0, s.len() as int) =~= s);
        s.len() as int
    }
}

/// What `trim` keeps is a stretch of `s`, and it neither starts nor ends with
/// white space.
proof fn lemma_trim_shape(s: Seq<char>) -> (r: (int, int))
    ensures
        0 <= r.0 <= r.1 <= s.len(),
        trim(s) == s.subrange(r.0, r.1),
        trim(s).len() > 0 ==> !is_white_space(trim(s)[0]) && !is_white_space(trim(s).last()),
{
    let a = lemma_trim_start_shape(s);
    let t = trim_start(s);
    let b = lemma_trim_end_shape(t);
    assert(t.subrange(0, b) =~= s.subrange(a, a + b));
    if trim(s).len() > 0 {
        assert(trim(s)[0] == t[0]);
    }
    (a, a + b)
}

proof fn lemma_trim_fixed(f: Seq<char>)
    requires
        f.len() > 0 ==> !is_white_space(f[0]) && !is_white_space(f.last()),
    ensures
        trim(f) == f,
{
    assert(trim_start(f) == f);
    assert(trim_end(f) == f);
}

proof fn lemma_split_commas_no_comma(s: Seq<char>)
    ensures
        forall|k: int| 0 <= k < split_commas(s).len() ==> !(#[trigger] split_commas(s)[k]).contains(','),
    decreases s.len(),
{
    if s.len() > 0 {
        let p = split_commas(s.drop_last());
        lemma_split_commas_no_comma(s.drop_last());
        lemma_split_commas_nonempty(s.drop_last());
        if s.last() != ',' {
            let q = p.last().push(s.last());
            assert(!p.last().contains(','));
            assert(!q.contains(',')) by {
                if q.contains(',') {
                    let j = choose|j: int| 0 <= j < q.len() && q[j] == ',';
                    if j < p.last().len() {
                        assert(p.last()[j] == ',');
                    }
                }
            }
        }
    }
}

proof fn lemma_trimmed_nonempty_clean(pieces: Seq<Seq<char>>)
    requires
        forall|k: int| 0 <= k < pieces.len() ==> !(#[trigger] pieces[k]).contains(','),
    ensures
        forall|k: int|
            0 <= k < trimmed_nonempty(pieces).len() ==> is_clean_field(
                #[trigger] trimmed_nonempty(pieces)[k],
            ),
    decreases pieces.len(),
{
    if pieces.len() > 0 {
        let rest = pieces.drop_last();
        assert forall|k: int| 0 <= k < rest.len() implies !(#[trigger] rest[k]).contains(',') by {
            assert(rest[k] == pieces[k]);
        }
        lemma_trimmed_nonempty_clean(rest);
        let last = pieces.last();
        assert(!pieces[pieces.len() - 1].contains(','));
        let t = trim(last);
        let r = lemma_trim_shape(last);
        let out = trimmed_nonempty(pieces);
        let prev = trimmed_nonempty(rest);
        if t.len() > 0 {
            lemma_trim_fixed(t);
            assert(!t.contains(',')) by {
                if t.contains(',') {
                    let j = choose|j: int| 0 <= j < t.len() && t[j] == ',';
                    assert(last[r.0 + j] == ',');
                }
            }
            assert(out == prev.push(t));
            assert forall|k: int| 0 <= k < out.len() implies is_clean_field(#[trigger] out[k]) by {
                if k < prev.len() {
                    assert(out[k] == prev[k]);
                }
            }
        } else {
            assert(out == prev);
        }
    }
}

/// Law: every field that a comma-separated list yields is non-empty, holds no
/// comma, and has no white space at either end.
pub proof fn lemma_csv_fields_clean(s: Seq<char>)
    ensures
        forall|k: int| 0 <= k < csv_fields(s).len() ==> is_clean_field(#[trigger] csv_fields(s)[k]),
{
    lemma_split_commas_no_comma(s);
    lemma_trimmed_nonempty_clean(split_commas(s));
}

proof fn lemma_split_commas_append(x: Seq<char>, b: Seq<char>)
    requires
        !b.contains(','),
    ensures
        split_commas(x + b) == split_commas(x).drop_last().push(split_commas(x).last() + b),
    decreases b.len(),
{
    lemma_split_commas_nonempty(x);
    let p = split_commas(x);
    if b.len() == 0 {
        assert(x + b =~= x);
        assert(p.drop_last().push(p.last() + b) =~= p);
    } else {
        let b0 = b.drop_last();
        assert(!b0.contains(',')) by {
            if b0.contains(',') {
                let j = choose|j: int| 0 <= j < b0.len() && b0[j] == ',';
                assert(b[j] == ',');
            }
        }
        lemma_split_commas_append(x, b0);
        assert((x + b).drop_last() =~= x + b0);
        assert((x + b).last() == b.last());
        assert(b.last() != ',') by {
            assert(b[b.len() - 1] == b.last());
        }
        let big = split_commas(x + b0);
        assert(big =~= p.drop_last().push(p.last() + b0));
        assert(big.len() == p.len());
        assert(big.last() == p.last() + b0);
        assert((p.last() + b0).push(b.last()) =~= p.last() + b);
        assert(split_commas(x + b) == big.update(big.len() - 1, big.last().push(b.last())));
        assert(big.update(big.len() - 1, (p.last() + b0).push(b.last())) =~= p.drop_last().push(
            p.last() + b,
        ));
    }
}

proof fn lemma_split_join(items: Seq<Seq<char>>)
    requires
        items.len() >= 1,
        forall|k: int| 0 <= k < items.len() ==> !(#[trigger] items[k]).contains(','),
    ensures
        split_commas(join_commas(items)) == items,
    decreases items.len(),
{
    if items.len() == 1 {
        let e = Seq::<char>::empty();
        lemma_split_commas_append(e, items[0]);
        assert(e + items[0] =~= items[0]);
        assert(split_commas(e) =~= seq![e]);
        assert(seq![e].drop_last().push(e + items[0]) =~= items);
    } else {
        let init = items.drop_last();
        assert forall|k: int| 0 <= k < init.len() implies !(#[trigger] init[k]).contains(',') by {
            assert(init[k] == items[k]);
        }
        lemma_split_join(init);
        let j = join_commas(init);
        let x = j + seq![','];
        assert(!items[items.len() - 1].contains(','));
        lemma_split_commas_append(x, items.last());
        assert(x.drop_last() =~= j);
        assert(split_commas(x) =~= init.push(Seq::<char>::empty()));
        assert(Seq::<char>::empty() + items.last() =~= items.last());
        assert(init.push(Seq::<char>::empty()).drop_last() =~= init);
        assert(init.push(items.last()) =~= items);
    }
}

proof fn lemma_trimmed_nonempty_of_clean(items: Seq<Seq<char>>)
    requires
        forall|k: int| 0 <= k < items.len() ==> is_clean_field(#[trigger] items[k]),
    ensures
        trimmed_nonempty(items) == items,
    decreases items.len(),
{
    if items.len() > 0 {
        let init = items.drop_last();
        assert forall|k: int| 0 <= k < init.len() implies is_clean_field(#[trigger] init[k]) by {
            assert(init[k] == items[k]);
        }
        lemma_trimmed_nonempty_of_clean(init);
        assert(is_clean_field(items[items.len() - 1]));
        assert(init.push(items.last()) =~= items);
    }
}

/// Law: joining clean fields with commas and splitting the result again gives
/// back the same fields, in the same order.
pub proof fn lemma_csv_roundtrip(items: Seq<Seq<char>>)
    requires
        forall|k: int| 0 <= k < items.len() ==> is_clean_field(#[trigger] items[k]),
    ensures
        csv_fields(join_commas(items)) == items,
{
    if items.len() == 0 {
        let e = Seq::<char>::empty();
        assert(split_commas(e) =~= seq![e]);
        assert(trim_start(e) == e);
        assert(trim_end(e) == e);
        assert(seq![e].drop_last() =~= Seq::<Seq<char>>::empty());
        assert(trimmed_nonempty(Seq::<Seq<char>>::empty()) =~= Seq::<Seq<char>>::empty());
        assert(trim(e).len() == 0);
        assert(seq![e].last() == e);
        assert(trimmed_nonempty(seq![e]) =~= items);
    } else {
        lemma_split_join(items);
        lemma_trimmed_nonempty_of_clean(items);
    }
}

} // verus!
