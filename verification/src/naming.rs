//! The names of segment files: a fixed prefix, the generation number in
//! decimal, and a fixed extension, all in ASCII.

use vstd::prelude::*;

verus! {

/// The byte of the digit zero.
pub const ZERO: u8 = 48;

/// The byte of the plus sign.
pub const PLUS: u8 = 43;

/// The length of the prefix.
pub const PREFIX_LEN: usize = 8;

/// The length of the extension.
pub const EXTENSION_LEN: usize = 4;

/// What every segment file name begins with: `sstable_`.
pub open spec fn prefix() -> Seq<u8> {
    seq![115u8, 115u8, 116u8, 97u8, 98u8, 108u8, 101u8, 95u8]
}

/// What every segment file name ends with: `.sst`.
pub open spec fn extension() -> Seq<u8> {
    seq![46u8, 115u8, 115u8, 116u8]
}

/// Whether the byte is a decimal digit.
pub open spec fn is_digit(b: u8) -> bool {
    ZERO <= b <= ZERO + 9
}

/// Whether every byte is a decimal digit.
pub open spec fn all_digits(s: Seq<u8>) -> bool {
    forall|i: int| 0 <= i < s.len() ==> is_digit(#[trigger] s[i])
}

/// The number that decimal digits stand for, the first digit counting most.
pub open spec fn digits_value(s: Seq<u8>) -> nat
    decreases s.len(),
{
    if s.len() == 0 {
        0
    } else {
        (digits_value(s.drop_last()) * 10 + (s.last() - ZERO)) as nat
    }
}

/// The decimal digits of a number, without leading zeros.
pub open spec fn digits(n: nat) -> Seq<u8>
    decreases n,
{
    if n < 10 {
        seq![(ZERO + n) as u8]
    } else {
        digits(n / 10).push((ZERO + n % 10) as u8)
    }
}

/// The number that digits stand for: one or more decimal digits and nothing
/// else, of a value that 32 bits hold.
pub open spec fn number_of(body: Seq<u8>) -> Option<u32> {
    if body.len() > 0 && all_digits(body) && digits_value(body) <= u32::MAX {
        Some(digits_value(body) as u32)
    } else {
        None
    }
}

/// The number that a text stands for: an optional plus sign, then the
/// digits of the number.
pub open spec fn parse_number(s: Seq<u8>) -> Option<u32> {
    if s.len() > 0 && s[0] == PLUS {
        number_of(s.skip(1))
    } else {
        number_of(s)
    }
}

/// The name of the segment file of a generation.
pub open spec fn segment_name(id: nat) -> Seq<u8> {
    prefix() + digits(id) + extension()
}

/// The generation of a segment file name: what stands between the prefix
/// and the extension, read as a number. `None` for a name of another shape.
pub open spec fn parse_segment_name(name: Seq<u8>) -> Option<u32> {
    if name.len() >= PREFIX_LEN + EXTENSION_LEN && name.take(PREFIX_LEN as int) == prefix()
        && name.skip(name.len() - EXTENSION_LEN) == extension() {
        parse_number(name.subrange(PREFIX_LEN as int, name.len() - EXTENSION_LEN))
    } else {
        None
    }
}

/// The names that a vector of owned names stands for.
pub open spec fn view_names(v: Seq<Vec<u8>>) -> Seq<Seq<u8>> {
    Seq::new(v.len(), |i: int| v[i]@)
}

/// The generation of a segment file name as a number; less than zero for a
/// name of another shape.
pub open spec fn generation(name: Seq<u8>) -> int {
    match parse_segment_name(name) {
        Some(id) => id as int,
        None => -1,
    }
}

/// Whether every name is that of a segment file and the generations never
/// descend: the oldest segment first.
pub open spec fn ascending(s: Seq<Seq<u8>>) -> bool {
    &&& forall|i: int| 0 <= i < s.len() ==> 0 <= generation(#[trigger] s[i])
    &&& forall|i: int, j: int|
        #![trigger s[i], s[j]]
        0 <= i < j < s.len() ==> generation(s[i]) <= generation(s[j])
}

/// Whether every name is that of a segment file and each is of a later
/// generation than the one before it.
pub open spec fn strictly_ascending(s: Seq<Seq<u8>>) -> bool {
    &&& forall|i: int| 0 <= i < s.len() ==> 0 <= generation(#[trigger] s[i])
    &&& forall|i: int, j: int|
        #![trigger s[i], s[j]]
        0 <= i < j < s.len() ==> generation(s[i]) < generation(s[j])
}

/// Whether no name occurs twice.
pub open spec fn distinct(names: Seq<Seq<u8>>) -> bool {
    forall|i: int, j: int|
        #![trigger names[i], names[j]]
        0 <= i < j < names.len() ==> names[i] != names[j]
}

/// The index behind every name whose generation is no more than `id`, in
/// names whose generations never descend.
pub open spec fn place(s: Seq<Seq<u8>>, id: int) -> int
    decreases s.len(),
{
    if s.len() == 0 {
        0
    } else if generation(s.last()) <= id {
        s.len() as int
    } else {
        place(s.drop_last(), id)
    }
}

/// The segment file names among the given names, the oldest generation
/// first; names of one generation stay in the order in which they were
/// given. Names of another shape are left out.
pub open spec fn collect(names: Seq<Seq<u8>>) -> Seq<Seq<u8>>
    decreases names.len(),
{
    if names.len() == 0 {
        Seq::empty()
    } else {
        let rest = collect(names.drop_last());
        let name = names.last();
        if parse_segment_name(name) is Some {
            rest.insert(place(rest, generation(name)), name)
        } else {
            rest
        }
    }
}

/// The generation after the newest of the names, which are in ascending
/// order: zero where there is no name.
pub open spec fn next_generation(s: Seq<Seq<u8>>) -> nat {
    if s.len() == 0 {
        0
    } else {
        (generation(s.last()) + 1) as nat
    }
}

/// Where `place` points, the names of a generation up to `id` end.
pub proof fn lemma_place(s: Seq<Seq<u8>>, id: int)
    requires
        ascending(s),
    ensures
        0 <= place(s, id) <= s.len(),
        forall|i: int| 0 <= i < place(s, id) ==> generation(#[trigger] s[i]) <= id,
        forall|i: int| place(s, id) <= i < s.len() ==> generation(#[trigger] s[i]) > id,
    decreases s.len(),
{
    if s.len() > 0 {
        let last = s.len() - 1;
        if generation(s.last()) <= id {
            assert forall|i: int| 0 <= i < s.len() implies generation(#[trigger] s[i]) <= id by {
                if i < last {
                    assert(generation(s[i]) <= generation(s[last]));
                }
            }
        } else {
            let front = s.drop_last();
            assert(ascending(front)) by {
                assert forall|i: int| 0 <= i < front.len() implies 0 <= generation(
                    #[trigger] front[i],
                ) by {
                    assert(front[i] == s[i]);
                }
                assert forall|i: int, j: int|
                    #![trigger front[i], front[j]]
                    0 <= i < j < front.len() implies generation(front[i]) <= generation(
                    front[j],
                ) by {
                    assert(generation(s[i]) <= generation(s[j]));
                }
            }
            lemma_place(front, id);
            let p = place(front, id);
            assert forall|i: int| 0 <= i < p implies generation(#[trigger] s[i]) <= id by {
                assert(front[i] == s[i]);
            }
            assert forall|i: int| p <= i < s.len() implies generation(#[trigger] s[i]) > id by {
                if i < last {
                    assert(front[i] == s[i]);
                }
            }
        }
    }
}

/// Only one index parts ascending names behind the generations up to `id`.
pub proof fn lemma_place_unique(s: Seq<Seq<u8>>, id: int, p: int)
    requires
        ascending(s),
        0 <= p <= s.len(),
        forall|i: int| 0 <= i < p ==> generation(#[trigger] s[i]) <= id,
        forall|i: int| p <= i < s.len() ==> generation(#[trigger] s[i]) > id,
    ensures
        p == place(s, id),
{
    lemma_place(s, id);
    let q = place(s, id);
    if p < q {
        assert(generation(s[p]) <= id);
    } else if q < p {
        assert(generation(s[q]) <= id);
    }
}

/// A segment file name put at its place keeps the names ascending.
pub proof fn lemma_insert_ascending(s: Seq<Seq<u8>>, name: Seq<u8>)
    requires
        ascending(s),
        parse_segment_name(name) is Some,
    ensures
        ascending(s.insert(place(s, generation(name)), name)),
{
    let id = generation(name);
    lemma_place(s, id);
    let p = place(s, id);
    let t = s.insert(p, name);
    assert forall|i: int| 0 <= i < t.len() implies 0 <= generation(#[trigger] t[i]) by {
        if i < p {
            assert(t[i] == s[i]);
        } else if i > p {
            assert(t[i] == s[i - 1]);
        }
    }
    assert forall|i: int, j: int|
        #![trigger t[i], t[j]]
        0 <= i < j < t.len() implies generation(t[i]) <= generation(t[j]) by {
        let i0 = if i < p { i } else { i - 1 };
        let j0 = if j < p { j } else { j - 1 };
        if i == p {
            assert(t[j] == s[j0]);
            assert(generation(s[j0]) > id);
        } else if j == p {
            assert(t[i] == s[i0]);
            assert(generation(s[i0]) <= id);
        } else {
            assert(t[i] == s[i0]);
            assert(t[j] == s[j0]);
            assert(generation(s[i0]) <= generation(s[j0]));
        }
    }
}

/// The collected names ascend.
pub proof fn lemma_collect_ascending(names: Seq<Seq<u8>>)
    ensures
        ascending(collect(names)),
    decreases names.len(),
{
    if names.len() > 0 {
        lemma_collect_ascending(names.drop_last());
        if parse_segment_name(names.last()) is Some {
            lemma_insert_ascending(collect(names.drop_last()), names.last());
        }
    }
}

/// A name put into a sequence is in it, beside the names that were.
proof fn lemma_insert_contains(s: Seq<Seq<u8>>, p: int, added: Seq<u8>, name: Seq<u8>)
    requires
        0 <= p <= s.len(),
    ensures
        s.insert(p, added).contains(name) <==> s.contains(name) || name == added,
{
    let t = s.insert(p, added);
    if t.contains(name) {
        let i = choose|i: int| 0 <= i < t.len() && t[i] == name;
        if i < p {
            assert(s[i] == name);
        } else if i > p {
            assert(s[i - 1] == name);
        }
    }
    if s.contains(name) {
        let i = choose|i: int| 0 <= i < s.len() && s[i] == name;
        if i < p {
            assert(t[i] == name);
        } else {
            assert(t[i + 1] == name);
        }
    }
    if name == added {
        assert(t[p] == name);
    }
}

/// A name is among the collected names exactly if it is a segment file name
/// among the given names.
pub proof fn lemma_collect_contains(names: Seq<Seq<u8>>, name: Seq<u8>)
    ensures
        collect(names).contains(name) <==> names.contains(name) && parse_segment_name(name)
            is Some,
    decreases names.len(),
{
    if names.len() > 0 {
        let front = names.drop_last();
        let last = names.last();
        let rest = collect(front);
        lemma_collect_contains(front, name);
        lemma_collect_ascending(front);
        if parse_segment_name(last) is Some {
            lemma_place(rest, generation(last));
            lemma_insert_contains(rest, place(rest, generation(last)), last, name);
        }
        if front.contains(name) {
            let j = choose|j: int| 0 <= j < front.len() && front[j] == name;
            assert(names[j] == name);
        }
        if names.contains(name) {
            let j = choose|j: int| 0 <= j < names.len() && names[j] == name;
            if j < names.len() - 1 {
                assert(front[j] == name);
            }
        } else if name == last {
            assert(names[names.len() - 1] == name);
        }
    }
}

/// Names of strictly ascending generations are all different.
pub proof fn lemma_strictly_ascending_distinct(s: Seq<Seq<u8>>)
    requires
        strictly_ascending(s),
    ensures
        distinct(s),
        ascending(s),
{
    assert forall|i: int, j: int|
        #![trigger s[i], s[j]]
        0 <= i < j < s.len() implies s[i] != s[j] && generation(s[i]) <= generation(s[j]) by {
        assert(generation(s[i]) < generation(s[j]));
    }
}

/// Of names that are all different, the collected names are all different.
pub proof fn lemma_collect_distinct(names: Seq<Seq<u8>>)
    requires
        distinct(names),
    ensures
        distinct(collect(names)),
    decreases names.len(),
{
    if names.len() > 0 {
        let front = names.drop_last();
        let last = names.last();
        let rest = collect(front);
        assert(distinct(front)) by {
            assert forall|i: int, j: int|
                #![trigger front[i], front[j]]
                0 <= i < j < front.len() implies front[i] != front[j] by {
                assert(names[i] != names[j]);
            }
        }
        lemma_collect_distinct(front);
        if parse_segment_name(last) is Some {
            lemma_collect_ascending(front);
            lemma_place(rest, generation(last));
            lemma_collect_contains(front, last);
            let p = place(rest, generation(last));
            let all = rest.insert(p, last);
            assert(!rest.contains(last)) by {
                if front.contains(last) {
                    let j = choose|j: int| 0 <= j < front.len() && front[j] == last;
                    assert(names[j] != names[names.len() - 1]);
                }
            }
            assert forall|i: int, j: int|
                #![trigger all[i], all[j]]
                0 <= i < j < all.len() implies all[i] != all[j] by {
                let i0 = if i < p { i } else { i - 1 };
                let j0 = if j < p { j } else { j - 1 };
                if i == p {
                    assert(all[j] == rest[j0]);
                    assert(rest.contains(rest[j0]));
                } else if j == p {
                    assert(all[i] == rest[i0]);
                    assert(rest.contains(rest[i0]));
                } else {
                    assert(all[i] == rest[i0]);
                    assert(all[j] == rest[j0]);
                    assert(rest[i0] != rest[j0]);
                }
            }
        }
    }
}

/// The order by generation is one order only: ascending names that are all
/// different and are the names of a strictly ascending sequence are that
/// sequence.
pub proof fn lemma_ascending_unique(a: Seq<Seq<u8>>, b: Seq<Seq<u8>>)
    requires
        strictly_ascending(a),
        ascending(b),
        distinct(b),
        forall|name: Seq<u8>| a.contains(name) <==> b.contains(name),
    ensures
        a == b,
    decreases a.len(),
{
    if a.len() == 0 {
        if b.len() > 0 {
            assert(b.contains(b[0]));
        }
        assert(a =~= b);
    } else {
        let al = a.len() - 1;
        assert(a.contains(a[al]));
        let j = choose|j: int| 0 <= j < b.len() && b[j] == a[al];
        let bl = b.len() - 1;
        assert(b.contains(b[bl]));
        let i = choose|i: int| 0 <= i < a.len() && a[i] == b[bl];
        if j < bl {
            assert(generation(b[j]) <= generation(b[bl]));
            if i < al {
                assert(generation(a[i]) < generation(a[al]));
            }
            assert(b[j] != b[bl]);
        }
        assert(b[bl] == a[al]);
        let af = a.drop_last();
        let bf = b.drop_last();
        assert(strictly_ascending(af)) by {
            assert forall|x: int| 0 <= x < af.len() implies 0 <= generation(#[trigger] af[x]) by {
                assert(af[x] == a[x]);
            }
            assert forall|x: int, y: int|
                #![trigger af[x], af[y]]
                0 <= x < y < af.len() implies generation(af[x]) < generation(af[y]) by {
                assert(generation(a[x]) < generation(a[y]));
            }
        }
        assert(ascending(bf) && distinct(bf)) by {
            assert forall|x: int| 0 <= x < bf.len() implies 0 <= generation(#[trigger] bf[x]) by {
                assert(bf[x] == b[x]);
            }
            assert forall|x: int, y: int|
                #![trigger bf[x], bf[y]]
                0 <= x < y < bf.len() implies generation(bf[x]) <= generation(bf[y]) && bf[x]
                != bf[y] by {
                assert(generation(b[x]) <= generation(b[y]));
                assert(b[x] != b[y]);
            }
        }
        assert forall|name: Seq<u8>| af.contains(name) <==> bf.contains(name) by {
            if af.contains(name) {
                let x = choose|x: int| 0 <= x < af.len() && af[x] == name;
                assert(a[x] == name);
                assert(generation(a[x]) < generation(a[al]));
                assert(a.contains(name));
                let y = choose|y: int| 0 <= y < b.len() && b[y] == name;
                assert(y != bl);
                assert(bf[y] == name);
            }
            if bf.contains(name) {
                let y = choose|y: int| 0 <= y < bf.len() && bf[y] == name;
                assert(b[y] == name);
                assert(b[y] != b[bl]);
                assert(b.contains(name));
                let x = choose|x: int| 0 <= x < a.len() && a[x] == name;
                assert(x != al);
                assert(af[x] == name);
            }
        }
        lemma_ascending_unique(af, bf);
        assert(a =~= af.push(a[al]));
        assert(b =~= bf.push(b[bl]));
    }
}

/// The digits of a number are digits, at least one, and stand for it.
pub proof fn lemma_digits(n: nat)
    ensures
        digits(n).len() >= 1,
        all_digits(digits(n)),
        digits_value(digits(n)) == n,
    decreases n,
{
    if n < 10 {
        let s = digits(n);
        assert(s.drop_last() =~= Seq::<u8>::empty());
        assert(digits_value(s.drop_last()) == 0);
    } else {
        lemma_digits(n / 10);
        let front = digits(n / 10);
        let s = digits(n);
        assert(s.drop_last() =~= front);
        assert forall|i: int| 0 <= i < s.len() implies is_digit(#[trigger] s[i]) by {
            if i < front.len() {
                assert(s[i] == front[i]);
            }
        }
    }
}

/// The value of digits is no less than the value of the digits at their
/// front.
pub proof fn lemma_digits_value_take(s: Seq<u8>, n: int)
    requires
        all_digits(s),
        0 <= n <= s.len(),
    ensures
        digits_value(s.take(n)) <= digits_value(s),
    decreases s.len(),
{
    if n < s.len() {
        let front = s.drop_last();
        assert(all_digits(front)) by {
            assert forall|i: int| 0 <= i < front.len() implies is_digit(#[trigger] front[i]) by {
                assert(front[i] == s[i]);
            }
        }
        lemma_digits_value_take(front, n);
        assert(front.take(n) =~= s.take(n));
        assert(is_digit(s[s.len() - 1]));
    } else {
        assert(s.take(n) =~= s);
    }
}

/// The name made for a generation is read back as that generation.
pub proof fn lemma_parse_segment_name(id: nat)
    requires
        id <= u32::MAX,
    ensures
        parse_segment_name(segment_name(id)) == Some(id as u32),
{
    lemma_digits(id);
    let name = segment_name(id);
    let d = digits(id);
    assert(name.take(PREFIX_LEN as int) =~= prefix());
    assert(name.skip(name.len() - EXTENSION_LEN) =~= extension());
    assert(name.subrange(PREFIX_LEN as int, name.len() - EXTENSION_LEN) =~= d);
    assert(is_digit(d[0]));
}

/// Appends the decimal digits of a number.
fn push_digits(out: &mut Vec<u8>, n: u32)
    ensures
        final(out)@ == old(out)@ + digits(n as nat),
    decreases n,
{
    if n >= 10 {
        push_digits(out, n / 10);
    }
    out.push(ZERO + (n % 10) as u8);
    assert(out@ =~= old(out)@ + digits(n as nat));
}

/// The name of the segment file of a generation.
pub fn make_segment_name(id: u32) -> (name: Vec<u8>)
    ensures
        name@ == segment_name(id as nat),
{
    let head: [u8; 8] = [115, 115, 116, 97, 98, 108, 101, 95];
    let tail: [u8; 4] = [46, 115, 115, 116];
    let mut name: Vec<u8> = Vec::new();
    name.extend_from_slice(head.as_slice());
    assert(name@ =~= prefix());
    push_digits(&mut name, id);
    name.extend_from_slice(tail.as_slice());
    assert(name@ =~= segment_name(id as nat));
    name
}

/// Whether the name begins with the prefix and ends with the extension.
fn has_segment_shape(name: &[u8]) -> (shaped: bool)
    ensures
        shaped == (name@.len() >= PREFIX_LEN + EXTENSION_LEN && name@.take(PREFIX_LEN as int)
            == prefix() && name@.skip(name@.len() - EXTENSION_LEN) == extension()),
{
    let n = name.len();
    if n < PREFIX_LEN + EXTENSION_LEN {
        return false;
    }
    let begins = name[0] == 115 && name[1] == 115 && name[2] == 116 && name[3] == 97 && name[4]
        == 98 && name[5] == 108 && name[6] == 101 && name[7] == 95;
    let ends = name[n - 4] == 46 && name[n - 3] == 115 && name[n - 2] == 115 && name[n - 1] == 116;
    proof {
        let head = name@.take(PREFIX_LEN as int);
        let tail = name@.skip(n - EXTENSION_LEN);
        if begins {
            assert(head =~= prefix());
        } else {
            assert(head[0] == name@[0] && head[1] == name@[1] && head[2] == name@[2] && head[3]
                == name@[3] && head[4] == name@[4] && head[5] == name@[5] && head[6] == name@[6]
                && head[7] == name@[7]);
        }
        if ends {
            assert(tail =~= extension());
        } else {
            assert(tail[0] == name@[n - 4] && tail[1] == name@[n - 3] && tail[2] == name@[n - 2]
                && tail[3] == name@[n - 1]);
        }
    }
    begins && ends
}

/// The generation of a segment file name, or `None` for a name of another
/// shape.
pub fn read_segment_name(name: &[u8]) -> (id: Option<u32>)
    ensures
        id == parse_segment_name(name@),
{
    if !has_segment_shape(name) {
        return None;
    }
    let end = name.len() - EXTENSION_LEN;
    let ghost text = name@.subrange(PREFIX_LEN as int, end as int);
    let mut start = PREFIX_LEN;
    if start < end && name[start] == PLUS {
        start += 1;
    }
    let ghost body = name@.subrange(start as int, end as int);
    proof {
        assert(text.len() > 0 ==> text[0] == name@[PREFIX_LEN as int]);
        if start > PREFIX_LEN {
            assert(body =~= text.skip(1));
        } else {
            assert(body =~= text);
        }
        assert(parse_segment_name(name@) == number_of(body));
    }
    if start == end {
        return None;
    }
    let mut value: u64 = 0;
    let mut i = start;
    assert(body.take(0) =~= Seq::<u8>::empty());
    while i < end
        invariant
            start <= i <= end,
            end <= name@.len(),
            body == name@.subrange(start as int, end as int),
            parse_segment_name(name@) == number_of(body),
            all_digits(body.take(i - start)),
            value == digits_value(body.take(i - start)),
            value <= u32::MAX,
        decreases end - i,
    {
        let b = name[i];
        assert(body[i - start] == b);
        if b < ZERO || b > ZERO + 9 {
            assert(!is_digit(body[i - start]));
            return None;
        }
        let ghost seen = body.take(i - start + 1);
        proof {
            assert(seen.drop_last() =~= body.take(i - start));
            assert(seen.last() == b);
            assert forall|j: int| 0 <= j < seen.len() implies is_digit(#[trigger] seen[j]) by {
                if j < i - start {
                    assert(seen[j] == body.take(i - start)[j]);
                }
            }
        }
        value = value * 10 + (b - ZERO) as u64;
        if value > u32::MAX as u64 {
            proof {
                if all_digits(body) {
                    lemma_digits_value_take(body, i - start + 1);
                }
            }
            return None;
        }
        i += 1;
    }
    assert(body.take(i - start) =~= body);
    Some(value as u32)
}

} // verus!
