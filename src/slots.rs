use vstd::prelude::*;
use vstd::slice::slice_subrange;
use vstd::string::StrSliceExecFns;
use vstd::utf8::encode_utf8;

use crate::error::Error;

verus! {

/// Number of hash slots in the cluster.
pub const SLOTS_COUNT: usize = 16384;

/// Line feed, which ends a line of topology text.
pub const LF: u8 = 10;

/// Space, which separates the fields of a line.
pub const SPACE: u8 = 32;

/// `@`, which starts the bus-port suffix of a node address.
pub const AT: u8 = 64;

/// `-`, which separates the bounds of a slot range.
pub const DASH: u8 = 45;

pub const DIGIT_0: u8 = 48;

pub const DIGIT_9: u8 = 57;

/// Pieces of `s` between occurrences of `sep`, as `split` on a string yields
/// them: `n` separators give `n + 1` pieces, empty ones included.
pub open spec fn split(s: Seq<u8>, sep: u8) -> Seq<Seq<u8>>
    decreases s.len(),
{
    if s.len() == 0 {
        seq![Seq::empty()]
    } else {
        let p = split(s.drop_last(), sep);
        if s.last() == sep {
            p.push(Seq::empty())
        } else {
            p.update(p.len() - 1, p.last().push(s.last()))
        }
    }
}

pub proof fn lemma_split_nonempty(s: Seq<u8>, sep: u8)
    ensures
        split(s, sep).len() >= 1,
    decreases s.len(),
{
    if s.len() > 0 {
        lemma_split_nonempty(s.drop_last(), sep);
    }
}

/// The pieces of `s` that `bounds` delimit.
pub open spec fn pieces(s: Seq<u8>, bounds: Seq<(usize, usize)>) -> Seq<Seq<u8>> {
    bounds.map_values(|b: (usize, usize)| s.subrange(b.0 as int, b.1 as int))
}

/// Bounds of the pieces of `s` between occurrences of `sep`.
fn split_bounds(s: &[u8], sep: u8) -> (r: Vec<(usize, usize)>)
    ensures
        r@.len() == split(s@, sep).len(),
        forall|k: int|
            0 <= k < r@.len() ==> (#[trigger] r@[k]).0 <= r@[k].1 <= s@.len() && split(s@, sep)[k]
                == s@.subrange(r@[k].0 as int, r@[k].1 as int),
{
    let mut r: Vec<(usize, usize)> = Vec::new();
    let mut start: usize = 0;
    let mut i: usize = 0;
    assert(s@.take(0) =~= Seq::<u8>::empty());
    assert(s@.subrange(0, 0) =~= Seq::<u8>::empty());
    assert(split(s@.take(0), sep) =~= pieces(s@, r@).push(s@.subrange(0, 0)));
    while i < s.len()
        invariant
            start <= i <= s@.len(),
            split(s@.take(i as int), sep) == pieces(s@, r@).push(s@.subrange(start as int, i as int)),
            forall|k: int| 0 <= k < r@.len() ==> (#[trigger] r@[k]).0 <= r@[k].1 <= start,
        decreases s@.len() - i,
    {
        let ghost prev = pieces(s@, r@);
        proof {
            assert(s@.take(i + 1).drop_last() =~= s@.take(i as int));
            assert(s@.take(i + 1).last() == s@[i as int]);
            assert(s@.subrange(start as int, i + 1) =~= s@.subrange(start as int, i as int).push(s@[i as int]));
        }
        if s[i] == sep {
            r.push((start, i));
            assert(pieces(s@, r@) =~= prev.push(s@.subrange(start as int, i as int)));
            start = i + 1;
            assert(s@.subrange(start as int, i + 1) =~= Seq::<u8>::empty());
            assert(split(s@.take(i + 1), sep) == split(s@.take(i as int), sep).push(Seq::empty()));
            assert(split(s@.take(i + 1), sep) =~= pieces(s@, r@).push(s@.subrange(start as int, i + 1)));
        } else {
            let ghost p = split(s@.take(i as int), sep);
            assert(split(s@.take(i + 1), sep) == p.update(p.len() - 1, p.last().push(s@[i as int])));
            assert(split(s@.take(i + 1), sep) =~= pieces(s@, r@).push(s@.subrange(start as int, i + 1)));
        }
        i = i + 1;
    }
    let ghost prev = pieces(s@, r@);
    r.push((start, i));
    assert(pieces(s@, r@) =~= prev.push(s@.subrange(start as int, i as int)));
    assert(s@.take(i as int) =~= s@);
    r
}

/// `s` holds `pat` as a contiguous run.
pub open spec fn contains(s: Seq<u8>, pat: Seq<u8>) -> bool {
    exists|i: int| 0 <= i <= s.len() - pat.len() && #[trigger] s.subrange(i, i + pat.len()) == pat
}

/// The role word that marks a line as describing a master node.
pub open spec fn master_word() -> Seq<u8> {
    // "master"
    seq![109u8, 97, 115, 116, 101, 114]
}

pub open spec fn is_digit(b: u8) -> bool {
    DIGIT_0 <= b <= DIGIT_9
}

/// A non-empty run of decimal digits.
pub open spec fn is_number(s: Seq<u8>) -> bool {
    s.len() > 0 && forall|i: int| 0 <= i < s.len() ==> is_digit(#[trigger] s[i])
}

/// The value of a run of decimal digits.
pub open spec fn decimal(s: Seq<u8>) -> nat
    decreases s.len(),
{
    if s.len() == 0 {
        0
    } else {
        decimal(s.drop_last()) * 10 + (s.last() - DIGIT_0) as nat
    }
}

/// A decimal number that names a slot.
pub open spec fn is_slot(s: Seq<u8>) -> bool {
    is_number(s) && decimal(s) < SLOTS_COUNT
}

/// The slots `lo..=hi`, in increasing order.
pub open spec fn slot_range(lo: int, hi: int) -> Seq<int> {
    Seq::new(if lo <= hi { (hi - lo + 1) as nat } else { 0 }, |k: int| lo + k)
}

/// Slots that one slot token denotes: `N` is slot N, `N-M` the slots N to M
/// inclusive; any other token denotes none.
pub open spec fn item_slots(tok: Seq<u8>) -> Seq<int> {
    let p = split(tok, DASH);
    if p.len() == 1 && is_slot(p[0]) {
        seq![decimal(p[0]) as int]
    } else if p.len() == 2 && is_slot(p[0]) && is_slot(p[1]) {
        slot_range(decimal(p[0]) as int, decimal(p[1]) as int)
    } else {
        Seq::empty()
    }
}

/// Slots of a sequence of tokens, token by token.
pub open spec fn tokens_slots(toks: Seq<Seq<u8>>) -> Seq<int>
    decreases toks.len(),
{
    if toks.len() == 0 {
        Seq::empty()
    } else {
        tokens_slots(toks.drop_last()) + item_slots(toks.last())
    }
}

/// Fields of a topology line from the ninth on: its slot tokens.
pub open spec fn slot_fields(f: Seq<Seq<u8>>) -> Seq<Seq<u8>> {
    if f.len() > 8 {
        f.subrange(8, f.len() as int)
    } else {
        Seq::empty()
    }
}

/// The node address of a topology line: its second field up to any `@`.
pub open spec fn line_addr(line: Seq<u8>) -> Seq<u8> {
    split(split(line, SPACE)[1], AT)[0]
}

/// A non-empty line whose third field holds the master role word.
pub open spec fn is_master_line(line: Seq<u8>) -> bool {
    let f = split(line, SPACE);
    line.len() > 0 && f.len() > 2 && contains(f[2], master_word())
}

/// The (slot, address) assignments that one topology line makes, in order.
pub open spec fn line_assigns(line: Seq<u8>) -> Seq<(int, Seq<u8>)> {
    if is_master_line(line) {
        let a = line_addr(line);
        tokens_slots(slot_fields(split(line, SPACE))).map_values(|x: int| (x, a))
    } else {
        Seq::empty()
    }
}

/// The assignments of a sequence of lines, line by line.
pub open spec fn lines_assigns(lines: Seq<Seq<u8>>) -> Seq<(int, Seq<u8>)>
    decreases lines.len(),
{
    if lines.len() == 0 {
        Seq::empty()
    } else {
        lines_assigns(lines.drop_last()) + line_assigns(lines.last())
    }
}

/// Every assignment that a topology text makes, in order.
pub open spec fn topology_assigns(data: Seq<u8>) -> Seq<(int, Seq<u8>)> {
    lines_assigns(split(data, LF))
}

/// Some assignment of `a` is to `slot`.
pub open spec fn covered(a: Seq<(int, Seq<u8>)>, slot: int) -> bool {
    exists|j: int| 0 <= j < a.len() && (#[trigger] a[j]).0 == slot
}

/// A topology text that assigns every slot exactly once.
pub open spec fn valid_topology(data: Seq<u8>) -> bool {
    let a = topology_assigns(data);
    a.len() == SLOTS_COUNT && forall|s: int| 0 <= s < SLOTS_COUNT ==> covered(a, s)
}

/// Text of the bytes, with each invalid UTF-8 sequence replaced by U+FFFD.
pub uninterp spec fn lossy_text(b: Seq<u8>) -> Seq<char>;

/// Relies on `String::from_utf8_lossy`: the text of the bytes, which depends
/// on the bytes alone; ASCII bytes come back as the same characters.
#[verifier::external_body]
fn lossy_string(b: &[u8]) -> (r: String)
    ensures
        r@ == lossy_text(b@),
        (forall|i: int| 0 <= i < b@.len() ==> #[trigger] b@[i] < 128) ==> r@ == b@.map_values(
            |x: u8| x as char,
        ),
{
    String::from_utf8_lossy(b).into_owned()
}

/// The table that the assignments leave, the later of two for one slot winning;
/// slots never assigned hold the empty address.
pub open spec fn table_of(a: Seq<(int, Seq<u8>)>) -> Seq<Seq<char>>
    decreases a.len(),
{
    if a.len() == 0 {
        Seq::new(SLOTS_COUNT as nat, |i: int| Seq::<char>::empty())
    } else {
        let t = table_of(a.drop_last());
        if 0 <= a.last().0 < SLOTS_COUNT {
            t.update(a.last().0, lossy_text(a.last().1))
        } else {
            t
        }
    }
}

/// Value of a decimal slot number, or `None` where `s` is no such number.
fn parse_slot(s: &[u8]) -> (r: Option<usize>)
    ensures
        r == (if is_slot(s@) { Some(decimal(s@) as usize) } else { None::<usize> }),
{
    if s.len() == 0 {
        return None;
    }
    let mut v: usize = 0;
    let mut big = false;
    let mut i: usize = 0;
    while i < s.len()
        invariant
            i <= s@.len(),
            forall|k: int| 0 <= k < i ==> is_digit(#[trigger] s@[k]),
            big <==> decimal(s@.take(i as int)) >= SLOTS_COUNT,
            !big ==> v == decimal(s@.take(i as int)),
        decreases s@.len() - i,
    {
        let c = s[i];
        if c < DIGIT_0 || c > DIGIT_9 {
            assert(!is_digit(s@[i as int]));
            return None;
        }
        assert(s@.take(i + 1).drop_last() =~= s@.take(i as int));
        if !big {
            v = v * 10 + (c - DIGIT_0) as usize;
            if v >= SLOTS_COUNT {
                big = true;
            }
        }
        i = i + 1;
    }
    assert(s@.take(i as int) =~= s@);
    if big {
        None
    } else {
        Some(v)
    }
}

/// Slot numbers as integers.
pub open spec fn slot_ints(v: Seq<usize>) -> Seq<int> {
    v.map_values(|x: usize| x as int)
}

/// Slots that one slot token denotes.
fn parse_item(item: &[u8]) -> (r: Vec<usize>)
    ensures
        slot_ints(r@) == item_slots(item@),
        forall|i: int| 0 <= i < r@.len() ==> #[trigger] r@[i] < SLOTS_COUNT,
{
    let mut slots: Vec<usize> = Vec::new();
    let p = split_bounds(item, DASH);
    if p.len() != 1 && p.len() != 2 {
        assert(slot_ints(slots@) =~= item_slots(item@));
        return slots;
    }
    let first = slice_subrange(item, p[0].0, p[0].1);
    assert(first@ == split(item@, DASH)[0]);
    let lo = match parse_slot(first) {
        Some(lo) => lo,
        None => {
            assert(slot_ints(slots@) =~= item_slots(item@));
            return slots;
        },
    };
    if p.len() == 1 {
        slots.push(lo);
        assert(slot_ints(slots@) =~= item_slots(item@));
        return slots;
    }
    let second = slice_subrange(item, p[1].0, p[1].1);
    assert(second@ == split(item@, DASH)[1]);
    let hi = match parse_slot(second) {
        Some(hi) => hi,
        None => {
            assert(slot_ints(slots@) =~= item_slots(item@));
            return slots;
        },
    };
    if lo > hi {
        assert(slot_ints(slots@) =~= item_slots(item@));
        return slots;
    }
    let mut i: usize = lo;
    assert(slot_ints(slots@) =~= slot_range(lo as int, i - 1));
    while i <= hi
        invariant
            lo <= i <= hi + 1,
            hi < SLOTS_COUNT,
            slots@.len() == i - lo,
            forall|k: int| 0 <= k < slots@.len() ==> #[trigger] slots@[k] < i,
            slot_ints(slots@) == slot_range(lo as int, i - 1),
        decreases hi + 1 - i,
    {
        let ghost prev = slots@;
        slots.push(i);
        assert forall|k: int| 0 <= k < slots@.len() implies #[trigger] slot_ints(slots@)[k] == slot_range(lo as int, i as int)[k] by {
            if k < prev.len() {
                assert(slot_ints(prev)[k] == slot_range(lo as int, i - 1)[k]);
            }
        }
        assert(slot_ints(slots@) =~= slot_range(lo as int, i as int));
        i = i + 1;
    }
    assert(slot_ints(slots@) =~= item_slots(item@));
    slots
}

/// `f` holds the master role word.
fn has_master(f: &[u8]) -> (r: bool)
    ensures
        r == contains(f@, master_word()),
{
    let ghost w = master_word();
    let mut i: usize = 0;
    while f.len() >= 6 && i <= f.len() - 6
        invariant
            i <= f@.len(),
            forall|j: int| 0 <= j < i ==> #[trigger] f@.subrange(j, j + 6) != w,
            w == master_word(),
        decreases f@.len() - i,
    {
        if f[i] == 109 && f[i + 1] == 97 && f[i + 2] == 115 && f[i + 3] == 116 && f[i + 4] == 101
            && f[i + 5] == 114 {
            assert(f@.subrange(i as int, i + 6) =~= w);
            return true;
        }
        assert(f@.subrange(i as int, i + 6) != w) by {
            if f@.subrange(i as int, i + 6) == w {
                assert(f@.subrange(i as int, i + 6)[0] == w[0]);
                assert(f@.subrange(i as int, i + 6)[1] == w[1]);
                assert(f@.subrange(i as int, i + 6)[2] == w[2]);
                assert(f@.subrange(i as int, i + 6)[3] == w[3]);
                assert(f@.subrange(i as int, i + 6)[4] == w[4]);
                assert(f@.subrange(i as int, i + 6)[5] == w[5]);
            }
        }
        i = i + 1;
    }
    false
}

/// For a master line: the bounds of its address within the line and the
/// slots that its tokens denote, in order. `None` for any other line.
fn parse_line(line: &[u8]) -> (r: Option<(usize, usize, Vec<usize>)>)
    ensures
        match r {
            None => !is_master_line(line@),
            Some((a, b, v)) => {
                &&& is_master_line(line@)
                &&& a <= b <= line@.len()
                &&& line@.subrange(a as int, b as int) == line_addr(line@)
                &&& slot_ints(v@) == tokens_slots(slot_fields(split(line@, SPACE)))
                &&& forall|i: int| 0 <= i < v@.len() ==> #[trigger] v@[i] < SLOTS_COUNT
            },
        },
{
    if line.len() == 0 {
        return None;
    }
    let f = split_bounds(line, SPACE);
    let ghost fs = split(line@, SPACE);
    if f.len() < 3 {
        return None;
    }
    let role = slice_subrange(line, f[2].0, f[2].1);
    assert(role@ == fs[2]);
    if !has_master(role) {
        return None;
    }
    let field = slice_subrange(line, f[1].0, f[1].1);
    assert(field@ == fs[1]);
    let at = split_bounds(field, AT);
    proof {
        lemma_split_nonempty(field@, AT);
    }
    let a = f[1].0 + at[0].0;
    let b = f[1].0 + at[0].1;
    assert(line@.subrange(a as int, b as int) =~= field@.subrange(at@[0].0 as int, at@[0].1 as int));
    let ghost toks = slot_fields(fs);
    let mut slots: Vec<usize> = Vec::new();
    let mut k: usize = 8;
    assert(toks.take(0) =~= Seq::<Seq<u8>>::empty());
    while k < f.len()
        invariant
            8 <= k,
            f@.len() == fs.len(),
            k <= f@.len() || k == 8,
            toks == slot_fields(fs),
            forall|i: int|
                0 <= i < f@.len() ==> (#[trigger] f@[i]).0 <= f@[i].1 <= line@.len() && fs[i]
                    == line@.subrange(f@[i].0 as int, f@[i].1 as int),
            slot_ints(slots@) == tokens_slots(toks.take(k - 8)),
            forall|i: int| 0 <= i < slots@.len() ==> #[trigger] slots@[i] < SLOTS_COUNT,
        decreases f@.len() - k,
    {
        let tok = slice_subrange(line, f[k].0, f[k].1);
        assert(tok@ == toks[k - 8]);
        let mut item = parse_item(tok);
        let ghost prev = slots@;
        let ghost it = item@;
        slots.append(&mut item);
        assert(slots@ == prev + it);
        assert(toks.take(k - 7).drop_last() =~= toks.take(k - 8));
        assert(slot_ints(slots@) =~= slot_ints(prev) + slot_ints(it));
        assert forall|i: int| 0 <= i < slots@.len() implies #[trigger] slots@[i] < SLOTS_COUNT by {
            if i >= prev.len() {
                assert(slots@[i] == it[i - prev.len()]);
            }
        }
        k = k + 1;
    }
    assert(toks.take(k - 8) =~= toks);
    Some((a, b, slots))
}

/// The addresses that a vector of strings holds.
pub open spec fn addrs_view(v: Seq<String>) -> Seq<Seq<char>> {
    v.map_values(|a: String| a@)
}

/// The number of assignments, counted up to one past the slot count.
pub open spec fn capped_len(a: Seq<(int, Seq<u8>)>) -> nat {
    if a.len() <= SLOTS_COUNT {
        a.len()
    } else {
        (SLOTS_COUNT + 1) as nat
    }
}

/// A slot table: the owning node address of each hash slot, in slot order.
pub struct Slots(pub Vec<String>);

impl View for Slots {
    type V = Seq<Seq<char>>;

    open spec fn view(&self) -> Seq<Seq<char>> {
        addrs_view(self.0@)
    }
}

impl Slots {
    /// Reads a slot table from topology text. Succeeds exactly when the text
    /// assigns every slot once; the table then holds, for each slot, the
    /// address of the master line that assigns it.
    pub fn parse(data: &[u8]) -> (r: Result<Slots, Error>)
        ensures
            match r {
                Ok(t) => valid_topology(data@) && t@ == table_of(topology_assigns(data@)),
                Err(e) => !valid_topology(data@) && e == Error::BadSlotsMap,
            },
    {
        let lines = split_bounds(data, LF);
        let ghost ls = split(data@, LF);
        let mut slots: Vec<String> = Vec::new();
        let mut filled: Vec<bool> = Vec::new();
        let mut i: usize = 0;
        while i < SLOTS_COUNT
            invariant
                i <= SLOTS_COUNT,
                addrs_view(slots@) =~= Seq::new(i as nat, |k: int| Seq::<char>::empty()),
                filled@ =~= Seq::new(i as nat, |k: int| false),
            decreases SLOTS_COUNT - i,
        {
            let ghost prev = slots@;
            slots.push(String::new());
            filled.push(false);
            assert(addrs_view(slots@) =~= addrs_view(prev).push(Seq::<char>::empty()));
            i = i + 1;
        }
        let mut count: usize = 0;
        let mut n: usize = 0;
        assert(ls.take(0) =~= Seq::<Seq<u8>>::empty());
        while n < lines.len()
            invariant
                n <= lines@.len() == ls.len(),
                forall|k: int|
                    0 <= k < lines@.len() ==> (#[trigger] lines@[k]).0 <= lines@[k].1
                        <= data@.len() && ls[k] == data@.subrange(
                        lines@[k].0 as int,
                        lines@[k].1 as int,
                    ),
                slots@.len() == SLOTS_COUNT,
                filled@.len() == SLOTS_COUNT,
                addrs_view(slots@) == table_of(lines_assigns(ls.take(n as int))),
                forall|s: int|
                    0 <= s < SLOTS_COUNT ==> #[trigger] filled@[s] == covered(
                        lines_assigns(ls.take(n as int)),
                        s,
                    ),
                count == capped_len(lines_assigns(ls.take(n as int))),
            decreases lines@.len() - n,
        {
            let ghost before = lines_assigns(ls.take(n as int));
            let line = slice_subrange(data, lines[n].0, lines[n].1);
            assert(line@ == ls[n as int]);
            assert(ls.take(n + 1).drop_last() =~= ls.take(n as int));
            assert(lines_assigns(ls.take(n + 1)) == before + line_assigns(line@));
            match parse_line(line) {
                None => {
                    assert(before + line_assigns(line@) =~= before);
                },
                Some((a, b, v)) => {
                    let addr = lossy_string(slice_subrange(line, a, b));
                    let ghost la = line_assigns(line@);
                    assert(la.len() == v@.len());
                    let mut j: usize = 0;
                    assert(before + la.take(0) =~= before);
                    while j < v.len()
                        invariant
                            j <= v@.len() == la.len(),
                            la == line_assigns(line@),
                            is_master_line(line@),
                            a <= b <= line@.len(),
                            line@.subrange(a as int, b as int) == line_addr(line@),
                            slot_ints(v@) == tokens_slots(slot_fields(split(line@, SPACE))),
                            forall|i: int| 0 <= i < v@.len() ==> #[trigger] v@[i] < SLOTS_COUNT,
                            addr@ == lossy_text(line_addr(line@)),
                            slots@.len() == SLOTS_COUNT,
                            filled@.len() == SLOTS_COUNT,
                            addrs_view(slots@) == table_of(before + la.take(j as int)),
                            forall|s: int|
                                0 <= s < SLOTS_COUNT ==> #[trigger] filled@[s] == covered(
                                    before + la.take(j as int),
                                    s,
                                ),
                            count == capped_len(before + la.take(j as int)),
                        decreases v@.len() - j,
                    {
                        let slot = v[j];
                        let ghost cur = before + la.take(j as int);
                        let ghost next = before + la.take(j + 1);
                        assert(la[j as int] == (slot as int, line_addr(line@)));
                        assert(next =~= cur.push((slot as int, line_addr(line@))));
                        assert(next.drop_last() =~= cur);
                        slots.set(slot, addr.clone());
                        filled.set(slot, true);
                        assert(addrs_view(slots@) =~= table_of(next));
                        assert forall|s: int| 0 <= s < SLOTS_COUNT implies #[trigger] filled@[s]
                            == covered(next, s) by {
                            if covered(cur, s) {
                                let w = choose|w: int| 0 <= w < cur.len() && (#[trigger] cur[w]).0 == s;
                                assert(next[w] == cur[w]);
                            }
                            if s == slot as int {
                                assert(next[cur.len() as int].0 == s);
                            }
                            if covered(next, s) && s != slot as int {
                                let w = choose|w: int| 0 <= w < next.len() && (#[trigger] next[w]).0 == s;
                                assert(cur[w] == next[w]);
                            }
                        }
                        if count <= SLOTS_COUNT {
                            count = count + 1;
                        }
                        j = j + 1;
                    }
                    assert(la.take(j as int) =~= la);
                },
            }
            n = n + 1;
        }
        assert(ls.take(n as int) =~= ls);
        if count != SLOTS_COUNT {
            return Err(Error::BadSlotsMap);
        }
        let mut s: usize = 0;
        while s < SLOTS_COUNT
            invariant
                s <= SLOTS_COUNT,
                filled@.len() == SLOTS_COUNT,
                forall|k: int| 0 <= k < s ==> #[trigger] filled@[k],
                forall|k: int|
                    0 <= k < SLOTS_COUNT ==> #[trigger] filled@[k] == covered(
                        topology_assigns(data@),
                        k,
                    ),
            decreases SLOTS_COUNT - s,
        {
            if !filled[s] {
                assert(!covered(topology_assigns(data@), s as int));
                return Err(Error::BadSlotsMap);
            }
            s = s + 1;
        }
        assert forall|k: int| 0 <= k < SLOTS_COUNT implies covered(topology_assigns(data@), k) by {
            assert(filled@[k]);
        }
        Ok(Slots(slots))
    }
}

/// CRC-16/XMODEM of a byte string.
pub uninterp spec fn xmodem_of(data: Seq<u8>) -> u16;

/// Relies on `crc16::State::<XMODEM>::calculate`: the CRC-16/XMODEM of the
/// bytes, which depends on the bytes alone.
#[verifier::external_body]
fn xmodem(data: &[u8]) -> (r: u16)
    ensures
        r == xmodem_of(data@),
{
    crc16::State::<crc16::XMODEM>::calculate(data)
}

/// The UTF-8 bytes of every address of a table, one after another in slot order.
pub open spec fn table_bytes(t: Seq<Seq<char>>) -> Seq<u8>
    decreases t.len(),
{
    if t.len() == 0 {
        Seq::empty()
    } else {
        table_bytes(t.drop_last()) + encode_utf8(t.last())
    }
}

/// The change-detection checksum of a table.
pub open spec fn checksum(t: Seq<Seq<char>>) -> u16 {
    xmodem_of(table_bytes(t))
}

impl Slots {
    /// Checksum of the table: CRC-16/XMODEM over all addresses in slot order.
    pub fn crc16(&self) -> (r: u16)
        ensures
            r == checksum(self@),
    {
        let mut buf: Vec<u8> = Vec::new();
        let mut i: usize = 0;
        assert(self@.take(0) =~= Seq::<Seq<char>>::empty());
        while i < self.0.len()
            invariant
                i <= self.0@.len(),
                buf@ == table_bytes(self@.take(i as int)),
            decreases self.0@.len() - i,
        {
            let mut bytes = self.0[i].as_str().as_bytes_vec();
            buf.append(&mut bytes);
            assert(self@.take(i + 1).drop_last() =~= self@.take(i as int));
            i = i + 1;
        }
        assert(self@.take(i as int) =~= self@);
        xmodem(buf.as_slice())
    }
}

/// What a slot map holds: the channel of each known node address, the
/// installed table, and the checksum of the installed table (`None` before the
/// first table is installed).
pub struct SlotsMapView<S> {
    pub nodes: Map<Seq<char>, S>,
    pub table: Seq<Seq<char>>,
    pub checksum: Option<u16>,
}

/// Every table that assignments leave covers all slots.
pub proof fn lemma_table_len(a: Seq<(int, Seq<u8>)>)
    ensures
        table_of(a).len() == SLOTS_COUNT,
    decreases a.len(),
{
    if a.len() > 0 {
        lemma_table_len(a.drop_last());
    }
}

/// The first valid topology text offered to a map without a table is
/// installed, and offering the same text again right after changes nothing.
pub proof fn lemma_checksum_stability<S>(m: SlotsMapView<S>, data: Seq<u8>)
    requires
        valid_topology(data),
    ensures
        m.checksum is None ==> updated(m, data).1,
        !updated(updated(m, data).0, data).1,
        updated(updated(m, data).0, data).0 == updated(m, data).0,
{
}

/// A topology text that leaves some slot unassigned is refused, and the map
/// stays exactly as it was.
pub proof fn lemma_incomplete_refused<S>(m: SlotsMapView<S>, data: Seq<u8>, slot: int)
    requires
        0 <= slot < SLOTS_COUNT,
        !covered(topology_assigns(data), slot),
    ensures
        updated(m, data) == (m, false),
{
}

/// The result of offering topology text to a slot map, and whether the
/// table was replaced: a valid text whose checksum differs from the installed
/// one replaces table and checksum; anything else leaves the map as it was.
pub open spec fn updated<S>(m: SlotsMapView<S>, data: Seq<u8>) -> (SlotsMapView<S>, bool) {
    let t = table_of(topology_assigns(data));
    if valid_topology(data) && m.checksum != Some(checksum(t)) {
        (SlotsMapView { nodes: m.nodes, table: t, checksum: Some(checksum(t)) }, true)
    } else {
        (m, false)
    }
}

/// The current slot table of a cluster together with the outbound channel of
/// each node.
pub struct SlotsMap<S> {
    // A vector with unique keys rather than a `HashMap`: vstd specifies
    // `HashMap` only for keys that obey its key model, which `String` does not
    // claim, so nothing could be proved of lookups keyed by address. Clusters
    // have few nodes, so the linear scan is cheap.
    nodes: Vec<(String, S)>,
    node_map: Ghost<Map<Seq<char>, S>>,
    slots: Vec<String>,
    crc16: Option<u16>,
}

impl<S> View for SlotsMap<S> {
    type V = SlotsMapView<S>;

    closed spec fn view(&self) -> SlotsMapView<S> {
        SlotsMapView { nodes: self.node_map@, table: addrs_view(self.slots@), checksum: self.crc16 }
    }
}

impl<S> SlotsMap<S> {
    /// Node addresses are unique, each maps to its channel, and a checksum is
    /// present exactly when a full table is installed, and is that table's.
    pub closed spec fn wf(&self) -> bool {
        &&& forall|i: int, j: int|
            0 <= i < j < self.nodes@.len() ==> (#[trigger] self.nodes@[i]).0@ != (
            #[trigger] self.nodes@[j]).0@
        &&& forall|i: int|
            0 <= i < self.nodes@.len() ==> self.node_map@.contains_key((#[trigger] self.nodes@[i]).0@)
                && self.node_map@[self.nodes@[i].0@] == self.nodes@[i].1
        &&& forall|k: Seq<char>|
            #[trigger] self.node_map@.contains_key(k) ==> exists|i: int|
                0 <= i < self.nodes@.len() && (#[trigger] self.nodes@[i]).0@ == k
        &&& match self.crc16 {
            None => self.slots@.len() == 0,
            Some(c) => self.slots@.len() == SLOTS_COUNT && c == checksum(addrs_view(self.slots@)),
        }
    }

    /// Offers topology text. Installs its table and returns true when the text
    /// is valid and its checksum differs from the installed one; otherwise
    /// returns false and leaves the map unchanged.
    pub fn try_update_all(&mut self, data: &[u8]) -> (r: bool)
        requires
            old(self).wf(),
        ensures
            final(self).wf(),
            (final(self)@, r) == updated(old(self)@, data@),
            !r ==> *final(self) == *old(self),
    {
        match Slots::parse(data) {
            Ok(slots) => {
                let c = slots.crc16();
                proof {
                    lemma_table_len(topology_assigns(data@));
                }
                match self.crc16() {
                    Some(cur) => {
                        if cur == c {
                            return false;
                        }
                    },
                    None => {},
                }
                let ghost t = slots@;
                assert(slots.0@.len() == t.len());
                self.slots = slots.0;
                self.crc16 = Some(c);
                assert(addrs_view(self.slots@) == t);
                assert(self.slots@.len() == SLOTS_COUNT);
                assert(c == checksum(addrs_view(self.slots@)));
                assert(self.nodes == old(self).nodes);
                true
            },
            Err(_) => false,
        }
    }

    /// Registers the channel of a node, replacing any channel it had.
    pub fn add_node(&mut self, node: String, sender: S)
        requires
            old(self).wf(),
        ensures
            final(self).wf(),
            final(self)@ == (SlotsMapView {
                nodes: old(self)@.nodes.insert(node@, sender),
                ..old(self)@
            }),
    {
        let ghost key = node@;
        let ghost m = self.node_map@.insert(key, sender);
        let mut i: usize = 0;
        while i < self.nodes.len()
            invariant
                i <= self.nodes@.len(),
                self.wf(),
                self@ == old(self)@,
                *self == *old(self),
                key == node@,
                m == old(self).node_map@.insert(key, sender),
                forall|k: int| 0 <= k < i ==> (#[trigger] self.nodes@[k]).0@ != key,
            decreases self.nodes@.len() - i,
        {
            if self.nodes[i].0 == node {
                self.nodes.set(i, (node, sender));
                self.node_map = Ghost(m);
                assert forall|k: Seq<char>| #[trigger] self.node_map@.contains_key(k) implies exists|
                    x: int,
                | 0 <= x < self.nodes@.len() && (#[trigger] self.nodes@[x]).0@ == k by {
                    if k != key {
                        assert(m.contains_key(k));
                        assert(old(self).node_map@.contains_key(k));
                        let x = choose|x: int|
                            0 <= x < old(self).nodes@.len() && (#[trigger] old(self).nodes@[x]).0@
                                == k;
                        assert(self.nodes@[x] == old(self).nodes@[x]);
                    } else {
                        assert(self.nodes@[i as int].0@ == k);
                    }
                }
                return;
            }
            i = i + 1;
        }
        self.nodes.push((node, sender));
        self.node_map = Ghost(m);
        assert forall|k: Seq<char>| #[trigger] self.node_map@.contains_key(k) implies exists|x: int|
            0 <= x < self.nodes@.len() && (#[trigger] self.nodes@[x]).0@ == k by {
            if k != key {
                assert(old(self).node_map@.contains_key(k));
                let x = choose|x: int|
                    0 <= x < old(self).nodes@.len() && (#[trigger] old(self).nodes@[x]).0@ == k;
                assert(self.nodes@[x] == old(self).nodes@[x]);
            } else {
                assert(self.nodes@[self.nodes@.len() - 1].0@ == k);
            }
        }
    }

    /// The channel registered for a node address, if any.
    pub fn get_sender_by_addr(&self, node: &String) -> (r: Option<&S>)
        requires
            self.wf(),
        ensures
            match r {
                Some(s) => self@.nodes.contains_key(node@) && *s == self@.nodes[node@],
                None => !self@.nodes.contains_key(node@),
            },
    {
        let mut i: usize = 0;
        while i < self.nodes.len()
            invariant
                i <= self.nodes@.len(),
                self.wf(),
                forall|k: int| 0 <= k < i ==> (#[trigger] self.nodes@[k]).0@ != node@,
            decreases self.nodes@.len() - i,
        {
            if self.nodes[i].0 == *node {
                return Some(&self.nodes[i].1);
            }
            i = i + 1;
        }
        None
    }

    /// The address that owns a slot of the installed table.
    pub fn get_addr(&self, slot: usize) -> (r: String)
        requires
            self.wf(),
            self@.checksum is Some,
            slot < SLOTS_COUNT,
        ensures
            r@ == self@.table[slot as int],
    {
        self.slots[slot].clone()
    }

    /// Checksum of the installed table, `None` before the first install.
    fn crc16(&self) -> (r: Option<u16>)
        ensures
            r == self@.checksum,
    {
        self.crc16
    }
}

impl<S> Default for SlotsMap<S> {
    /// A map with no nodes, an empty table, and no checksum, so that the first
    /// valid table offered is installed.
    fn default() -> (r: Self)
        ensures
            r.wf(),
            r@.nodes == Map::<Seq<char>, S>::empty(),
            r@.table.len() == 0,
            r@.checksum is None,
    {
        SlotsMap { nodes: Vec::new(), node_map: Ghost(Map::empty()), slots: Vec::new(), crc16: None }
    }
}

} // verus!
