use vstd::prelude::*;

use crate::connection::armed;
use crate::escape::{
    escape_encode, is_escape, lemma_escape_nibbles_differ, EscapeCode, BUFFER, EOF, SOF,
};
use crate::frame::{frame_of, frame_take, DATA_LEN};
use crate::input::{
    byte_of, decode_window, input_inv, push_step, reading_step, set_nibble, waiting_step,
    CommandView, DecodedValue, InputView,
};
use crate::output::{
    after_steps, call_step, calls_emitted, emitted, frame_nibble, idle_after, next_step,
    output_inv, separator, OutputCall, OutputView, BUFFER_HIGH, BUFFER_LOW,
};
use crate::frame::FRAME_LEN;

verus! {

/// A piece of what is on the line: one nibble of data, or the two nibbles
/// of a control byte.
pub enum Unit {
    Data(u8),
    Code(u8),
}

pub open spec fn unit_nibbles(u: Unit) -> Seq<u8> {
    match u {
        Unit::Data(n) => seq![n],
        Unit::Code(b) => seq![b / 16, b % 16],
    }
}

pub open spec fn unit_len(u: Unit) -> nat {
    match u {
        Unit::Data(_) => 1,
        Unit::Code(_) => 2,
    }
}

pub open spec fn first_nibble(u: Unit) -> u8 {
    match u {
        Unit::Data(n) => n,
        Unit::Code(b) => b / 16,
    }
}

/// The nibbles on the line, in order.
pub open spec fn flatten(us: Seq<Unit>) -> Seq<u8>
    decreases us.len(),
{
    if us.len() == 0 {
        Seq::empty()
    } else {
        unit_nibbles(us[0]) + flatten(us.drop_first())
    }
}

/// What the decoder should read out of a unit.
pub open spec fn token(u: Unit) -> DecodedValue {
    match u {
        Unit::Data(n) => DecodedValue::Nibble(n),
        Unit::Code(b) => match EscapeCode::spec_from_byte(b) {
            Some(c) => DecodedValue::EscapeCode(c),
            None => DecodedValue::Nibble(b / 16),
        },
    }
}

pub open spec fn unit_ok(u: Unit) -> bool {
    match u {
        Unit::Data(n) => n < 16,
        Unit::Code(b) => is_escape(b),
    }
}

/// A unit followed by another: the line changes between them, and no
/// control byte appears where none was sent.
pub open spec fn junction_ok(a: Unit, b: Unit) -> bool {
    match a {
        Unit::Data(n) => !is_escape(byte_of(n, first_nibble(b))) && n != first_nibble(b),
        Unit::Code(c) => b != Unit::Code(c) && c % 16 != first_nibble(b),
    }
}

/// A line on which every unit reads back as itself.
pub open spec fn clean(us: Seq<Unit>) -> bool {
    &&& forall|i: int| 0 <= i < us.len() ==> unit_ok(#[trigger] us[i])
    &&& forall|i: int| 0 <= i < us.len() - 1 ==> #[trigger] junction_ok(us[i], us[i + 1])
}

/// Where unit `j` starts on the line.
pub open spec fn start(us: Seq<Unit>, j: int) -> nat {
    flatten(us.take(j)).len()
}

/// One decoded value taken by the decoder's state machine.
pub open spec fn sm_step(m: InputView, v: DecodedValue) -> (InputView, CommandView) {
    if m.reading {
        reading_step(m, v)
    } else {
        waiting_step(m, v)
    }
}

/// The state machine run over the values of `us`, with the command of each.
pub open spec fn run_units(m: InputView, us: Seq<Unit>) -> (InputView, Seq<CommandView>)
    decreases us.len(),
{
    if us.len() == 0 {
        (m, Seq::empty())
    } else {
        let s = sm_step(m, token(us[0]));
        let r = run_units(s.0, us.drop_first());
        (r.0, seq![s.1] + r.1)
    }
}

/// The decoder fed the nibbles `w`, with the command of each push.
pub open spec fn feed(m: InputView, w: Seq<u8>) -> (InputView, Seq<CommandView>)
    decreases w.len(),
{
    if w.len() == 0 {
        (m, Seq::empty())
    } else {
        let r = feed(m, w.drop_last());
        let s = push_step(r.0, w.last());
        (s.0, r.1.push(s.1))
    }
}

/// The commands that ask for something, in order.
pub open spec fn signals(cs: Seq<CommandView>) -> Seq<CommandView>
    decreases cs.len(),
{
    if cs.len() == 0 {
        Seq::empty()
    } else if cs.last() is Nothing {
        signals(cs.drop_last())
    } else {
        signals(cs.drop_last()).push(cs.last())
    }
}

/// The parts of the decoder's state that its state machine owns.
pub open spec fn same_sm(a: InputView, b: InputView) -> bool {
    a.reading == b.reading && a.data == b.data && a.data_index == b.data_index
}

pub proof fn lemma_signals_append(a: Seq<CommandView>, b: Seq<CommandView>)
    ensures
        signals(a + b) == signals(a) + signals(b),
    decreases b.len(),
{
    if b.len() == 0 {
        assert(a + b =~= a);
        assert(signals(b) =~= Seq::<CommandView>::empty());
        assert(signals(a) + signals(b) =~= signals(a));
    } else {
        lemma_signals_append(a, b.drop_last());
        assert((a + b).drop_last() =~= a + b.drop_last());
        assert((a + b).last() == b.last());
        if b.last() is Nothing {
        } else {
            assert(signals(a) + signals(b) =~= (signals(a) + signals(b.drop_last())).push(
                b.last(),
            ));
        }
    }
}

pub proof fn lemma_flatten_append(a: Seq<Unit>, b: Seq<Unit>)
    ensures
        flatten(a + b) == flatten(a) + flatten(b),
    decreases a.len(),
{
    if a.len() == 0 {
        assert(a + b =~= b);
        assert(flatten(a) + flatten(b) =~= flatten(b));
    } else {
        lemma_flatten_append(a.drop_first(), b);
        assert((a + b).drop_first() =~= a.drop_first() + b);
        assert((a + b)[0] == a[0]);
        assert(flatten(a + b) =~= flatten(a) + flatten(b));
    }
}

pub proof fn lemma_flatten_single(u: Unit)
    ensures
        flatten(seq![u]) == unit_nibbles(u),
{
    let s = seq![u];
    assert(s.drop_first() =~= Seq::<Unit>::empty());
    assert(flatten(s.drop_first()) == Seq::<u8>::empty());
    assert(flatten(s) == unit_nibbles(s[0]) + flatten(s.drop_first()));
    assert(unit_nibbles(u) + Seq::<u8>::empty() =~= unit_nibbles(u));
}

pub proof fn lemma_start_next(us: Seq<Unit>, j: int)
    requires
        0 <= j < us.len(),
    ensures
        start(us, j + 1) == start(us, j) + unit_len(us[j]),
        flatten(us) == flatten(us.take(j)) + flatten(us.skip(j)),
        flatten(us.skip(j)) == unit_nibbles(us[j]) + flatten(us.skip(j + 1)),
{
    assert(us.take(j + 1) =~= us.take(j) + seq![us[j]]);
    lemma_flatten_append(us.take(j), seq![us[j]]);
    lemma_flatten_single(us[j]);
    assert(us =~= us.take(j) + us.skip(j));
    lemma_flatten_append(us.take(j), us.skip(j));
    assert(us.skip(j).drop_first() =~= us.skip(j + 1));
    assert(us.skip(j)[0] == us[j]);
}

/// Every nibble of a clean line is a nibble, and none repeats the one
/// before it.
pub proof fn lemma_clean_nibbles(us: Seq<Unit>)
    requires
        clean(us),
    ensures
        forall|i: int| 0 <= i < flatten(us).len() ==> #[trigger] flatten(us)[i] < 16,
        forall|i: int|
            0 < i < flatten(us).len() ==> #[trigger] flatten(us)[i] != flatten(us)[i - 1],
        us.len() > 0 ==> flatten(us)[0] == first_nibble(us[0]),
    decreases us.len(),
{
    if us.len() > 0 {
        let rest = us.drop_first();
        assert(clean(rest)) by {
            assert forall|i: int| 0 <= i < rest.len() implies unit_ok(#[trigger] rest[i]) by {
                assert(rest[i] == us[i + 1]);
            }
            assert forall|i: int| 0 <= i < rest.len() - 1 implies #[trigger] junction_ok(
                rest[i],
                rest[i + 1],
            ) by {
                assert(rest[i] == us[i + 1] && rest[i + 1] == us[i + 2]);
                assert(junction_ok(us[i + 1], us[i + 2]));
            }
        }
        lemma_clean_nibbles(rest);
        let w = flatten(us);
        let h = unit_nibbles(us[0]);
        assert(unit_ok(us[0]));
        assert(w == h + flatten(rest));
        assert forall|i: int| 0 <= i < w.len() implies #[trigger] w[i] < 16 by {
            if i >= h.len() {
                assert(w[i] == flatten(rest)[i - h.len()]);
            }
        }
        assert forall|i: int| 0 < i < w.len() implies #[trigger] w[i] != w[i - 1] by {
            if i < h.len() {
                if let Unit::Code(b) = us[0] {
                    lemma_escape_nibbles_differ(b);
                }
            } else if i == h.len() {
                assert(junction_ok(us[0], us[1]));
                assert(w[i] == flatten(rest)[0]);
                assert(rest[0] == us[1]);
            } else {
                assert(w[i] == flatten(rest)[i - h.len()]);
                assert(w[i - 1] == flatten(rest)[i - 1 - h.len()]);
            }
        }
    }
}

/// On a clean line, a decoder that stands at the start of a unit, with four
/// nibbles to look at, reads out that unit and keeps what follows it.
pub proof fn lemma_decode_unit(us: Seq<Unit>, j: int)
    requires
        clean(us),
        0 <= j < us.len(),
        flatten(us.skip(j)).len() >= 4,
    ensures
        decode_window(flatten(us.skip(j)).take(4)) == (token(us[j]), (4 - unit_len(us[j])) as nat),
{
    let t = us.skip(j);
    let w = flatten(t);
    assert(t[0] == us[j]);
    assert(unit_ok(us[j]));
    lemma_start_next(us, j);
    let w1 = flatten(us.skip(j + 1));
    assert(w == unit_nibbles(us[j]) + w1);
    assert(w1.len() > 0);
    assert(j + 1 < us.len()) by {
        if j + 1 >= us.len() {
            assert(us.skip(j + 1) =~= Seq::<Unit>::empty());
        }
    }
    assert(junction_ok(us[j], us[j + 1]));
    lemma_start_next(us, j + 1);
    let w2 = flatten(us.skip(j + 2));
    assert(w1 == unit_nibbles(us[j + 1]) + w2);
    let p = w.take(4);
    match us[j] {
        Unit::Data(n) => {
            assert(p[0] == n);
            assert(p[1] == first_nibble(us[j + 1]));
            assert(!is_escape(byte_of(p[0], p[1])));
        },
        Unit::Code(b) => {
            assert(p[0] == b / 16 && p[1] == b % 16);
            assert(byte_of(p[0], p[1]) == b);
            match us[j + 1] {
                Unit::Code(c) => {
                    assert(p[2] == c / 16 && p[3] == c % 16);
                    assert(byte_of(p[2], p[3]) == c);
                    assert(c != b);
                },
                Unit::Data(x) => {
                    assert(w2.len() > 0);
                    assert(j + 2 < us.len()) by {
                        if j + 2 >= us.len() {
                            assert(us.skip(j + 2) =~= Seq::<Unit>::empty());
                        }
                    }
                    assert(junction_ok(us[j + 1], us[j + 2]));
                    lemma_start_next(us, j + 2);
                    assert(p[2] == x);
                    assert(p[3] == first_nibble(us[j + 2]));
                    assert(!is_escape(byte_of(p[2], p[3])));
                },
            }
        },
    }
}

pub proof fn lemma_run_units_push(m: InputView, us: Seq<Unit>, u: Unit)
    ensures
        run_units(m, us.push(u)).0 == sm_step(run_units(m, us).0, token(u)).0,
        run_units(m, us.push(u)).1 == run_units(m, us).1.push(
            sm_step(run_units(m, us).0, token(u)).1,
        ),
    decreases us.len(),
{
    if us.len() == 0 {
        let s = seq![u];
        assert(us.push(u) =~= s);
        assert(s.drop_first() =~= Seq::<Unit>::empty());
        assert(run_units(sm_step(m, token(u)).0, s.drop_first()).1 =~= Seq::<CommandView>::empty());
        assert(run_units(m, s).1 =~= seq![sm_step(m, token(u)).1]);
    } else {
        let s = sm_step(m, token(us[0]));
        lemma_run_units_push(s.0, us.drop_first(), u);
        assert(us.push(u).drop_first() =~= us.drop_first().push(u));
        assert(us.push(u)[0] == us[0]);
        assert(run_units(m, us.push(u)).1 =~= run_units(m, us).1.push(
            sm_step(run_units(m, us).0, token(u)).1,
        ));
    }
}

/// The state machine looks only at its own part of the state, and leaves
/// the rest alone.
pub proof fn lemma_sm_step_same(a: InputView, b: InputView, v: DecodedValue)
    requires
        same_sm(a, b),
    ensures
        same_sm(sm_step(a, v).0, sm_step(b, v).0),
        sm_step(a, v).1 == sm_step(b, v).1,
        sm_step(a, v).0.pending == a.pending,
        sm_step(a, v).0.last == a.last,
{
}

/// A clean line fed to a decoder nibble by nibble: after `k` nibbles the
/// decoder stands at the start of unit `j`, holds the nibbles from there
/// on, and its state machine has taken the units before `j`, one by one.
pub proof fn lemma_feed(m: InputView, us: Seq<Unit>, k: nat) -> (j: nat)
    requires
        clean(us),
        input_inv(m),
        m.pending.len() == 0,
        k <= flatten(us).len(),
        flatten(us).len() > 0 ==> flatten(us)[0] != m.last,
    ensures
        j <= us.len(),
        start(us, j as int) <= k <= start(us, j as int) + 3,
        feed(m, flatten(us).take(k as int)).0.pending == flatten(us).subrange(
            start(us, j as int) as int,
            k as int,
        ),
        k > 0 ==> feed(m, flatten(us).take(k as int)).0.last == flatten(us)[k - 1],
        k == 0 ==> feed(m, flatten(us).take(k as int)).0.last == m.last,
        same_sm(feed(m, flatten(us).take(k as int)).0, run_units(m, us.take(j as int)).0),
        signals(feed(m, flatten(us).take(k as int)).1) == signals(
            run_units(m, us.take(j as int)).1,
        ),
    decreases k,
{
    let w = flatten(us);
    if k == 0 {
        assert(w.take(0) =~= Seq::<u8>::empty());
        assert(us.take(0) =~= Seq::<Unit>::empty());
        assert(flatten(us.take(0)) =~= Seq::<u8>::empty());
        assert(w.subrange(0, 0) =~= m.pending);
        0
    } else {
        let j0 = lemma_feed(m, us, (k - 1) as nat);
        lemma_clean_nibbles(us);
        let prev = feed(m, w.take(k - 1));
        assert(w.take(k as int).drop_last() =~= w.take(k - 1));
        assert(w.take(k as int).last() == w[k - 1]);
        let n = w[k - 1];
        assert(n % 16 == n);
        assert(n != prev.0.last) by {
            if k >= 2 {
                assert(w[k - 1] != w[k - 2]);
            }
        }
        let st = start(us, j0 as int);
        let p = prev.0.pending.push(n);
        assert(p =~= w.subrange(st as int, k as int));
        if p.len() < 4 {
            assert(feed(m, w.take(k as int)).1 == prev.1.push(CommandView::Nothing));
            assert(prev.1.push(CommandView::Nothing).drop_last() =~= prev.1);
            j0
        } else {
            lemma_feed_decode(m, us, k, j0);
            (j0 + 1) as nat
        }
    }
}

/// The step of `lemma_feed` in which the decoder's window fills up and it
/// reads out the unit it stands at.
#[verifier::rlimit(40)]
proof fn lemma_feed_decode(m: InputView, us: Seq<Unit>, k: nat, j0: nat)
    requires
        clean(us),
        k > 0,
        k <= flatten(us).len(),
        j0 <= us.len(),
        start(us, j0 as int) + 4 == k,
        feed(m, flatten(us).take(k - 1)).0.pending.push(flatten(us)[k - 1]) == flatten(
            us,
        ).subrange(start(us, j0 as int) as int, k as int),
        flatten(us)[k - 1] != feed(m, flatten(us).take(k - 1)).0.last,
        flatten(us)[k - 1] < 16,
        same_sm(feed(m, flatten(us).take(k - 1)).0, run_units(m, us.take(j0 as int)).0),
        signals(feed(m, flatten(us).take(k - 1)).1) == signals(
            run_units(m, us.take(j0 as int)).1,
        ),
    ensures
        j0 + 1 <= us.len(),
        start(us, (j0 + 1) as int) <= k <= start(us, (j0 + 1) as int) + 3,
        feed(m, flatten(us).take(k as int)).0.pending == flatten(us).subrange(
            start(us, (j0 + 1) as int) as int,
            k as int,
        ),
        feed(m, flatten(us).take(k as int)).0.last == flatten(us)[k - 1],
        same_sm(feed(m, flatten(us).take(k as int)).0, run_units(m, us.take((j0 + 1) as int)).0),
        signals(feed(m, flatten(us).take(k as int)).1) == signals(
            run_units(m, us.take((j0 + 1) as int)).1,
        ),
{
    let w = flatten(us);
    let st = start(us, j0 as int);
    let prev = feed(m, w.take(k - 1));
    let n = w[k - 1];
    let p = prev.0.pending.push(n);
    assert(w.take(k as int).drop_last() =~= w.take(k - 1));
    assert(w.take(k as int).last() == w[k - 1]);
    let (m_sm, cs_sm) = run_units(m, us.take(j0 as int));
    assert(j0 < us.len()) by {
        if j0 == us.len() {
            assert(us.take(j0 as int) =~= us);
        }
    }
    lemma_start_next(us, j0 as int);
    assert(w.subrange(st as int, k as int) =~= flatten(us.skip(j0 as int)).take(4));
    lemma_decode_unit(us, j0 as int);
    let u = us[j0 as int];
    let keep = (4 - unit_len(u)) as nat;
    let m1 = InputView { last: n, pending: p.subrange(4 - keep, 4), ..prev.0 };
    assert(n % 16 == n);
    assert(push_step(prev.0, n) == sm_step(m1, token(u)));
    lemma_sm_step_same(m1, m_sm, token(u));
    assert(us.take(j0 + 1 as int) =~= us.take(j0 as int).push(u));
    lemma_run_units_push(m, us.take(j0 as int), u);
    let c = sm_step(m1, token(u)).1;
    assert(p.subrange(4 - keep, 4) =~= w.subrange((st + unit_len(u)) as int, k as int));
    assert(feed(m, w.take(k as int)).1 == prev.1.push(c));
    assert(prev.1.push(c).drop_last() =~= prev.1);
    assert(cs_sm.push(c).drop_last() =~= cs_sm);
}

/// The nibbles of `s`, high nibble of each byte first.
pub open spec fn payload_nibbles(s: Seq<u8>) -> Seq<u8> {
    Seq::new(
        2 * s.len(),
        |i: int|
            if i % 2 == 0 {
                s[i / 2] / 16
            } else {
                s[i / 2] % 16
            },
    )
}

/// What the sender puts before nibble `c` when the nibble before it was
/// `prev`.
pub open spec fn sep_units(c: u8, prev: u8) -> Seq<Unit> {
    if c != prev {
        Seq::empty()
    } else if c == BUFFER_HIGH {
        seq![Unit::Data(BUFFER_LOW)]
    } else if c == BUFFER_LOW {
        seq![Unit::Data(BUFFER_HIGH)]
    } else {
        seq![Unit::Code(BUFFER)]
    }
}

/// Data nibbles `ns` as they go on the line after the nibble `prev`.
pub open spec fn spread(ns: Seq<u8>, prev: u8) -> Seq<Unit>
    decreases ns.len(),
{
    if ns.len() == 0 {
        Seq::empty()
    } else {
        sep_units(ns[0], prev) + seq![Unit::Data(ns[0])] + spread(ns.drop_first(), ns[0])
    }
}

/// A frame with payload `s` on the line, after the nibble `prev`: SOF, the
/// payload's nibbles and EOF, with the Buffer code between equal nibbles.
pub open spec fn frame_units(s: Seq<u8>, prev: u8) -> Seq<Unit> {
    let ns = payload_nibbles(s);
    sep_units(SOF / 16, prev) + seq![Unit::Code(SOF)] + spread(ns, SOF % 16) + sep_units(
        EOF / 16,
        ns.last(),
    ) + seq![Unit::Code(EOF)]
}

/// `k` nibbles of the idle pattern after the nibble `prev`.
pub open spec fn idle_units(prev: u8, k: nat) -> Seq<Unit>
    decreases k,
{
    if k == 0 {
        Seq::empty()
    } else {
        seq![Unit::Data(idle_after(prev))] + idle_units(idle_after(prev), (k - 1) as nat)
    }
}

/// The nibble the idle pattern ends on.
pub open spec fn idle_last(prev: u8, k: nat) -> u8
    decreases k,
{
    if k == 0 {
        prev
    } else {
        idle_last(idle_after(prev), (k - 1) as nat)
    }
}

/// Two neighbouring payload nibbles that the line can carry: they form no
/// control byte, and where they are equal the Buffer code between them
/// forms none either.
pub open spec fn pair_ok(a: u8, b: u8) -> bool {
    if a == b {
        a != 4 && a != BUFFER_HIGH && a != BUFFER_LOW
    } else {
        !is_escape(byte_of(a, b))
    }
}

/// A payload whose frame reads back from the line as sent.
pub open spec fn clean_payload(s: Seq<u8>) -> bool {
    let ns = payload_nibbles(s);
    &&& s.len() > 0
    &&& forall|i: int| 0 <= i < ns.len() - 1 ==> #[trigger] pair_ok(ns[i], ns[i + 1])
    &&& ns.last() != SOF / 16
}

pub proof fn lemma_clean_append(a: Seq<Unit>, b: Seq<Unit>)
    requires
        clean(a),
        clean(b),
        a.len() > 0 && b.len() > 0 ==> junction_ok(a.last(), b[0]),
    ensures
        clean(a + b),
{
    let c = a + b;
    assert forall|i: int| 0 <= i < c.len() implies unit_ok(#[trigger] c[i]) by {
        if i < a.len() {
            assert(c[i] == a[i]);
        } else {
            assert(c[i] == b[i - a.len()]);
        }
    }
    assert forall|i: int| 0 <= i < c.len() - 1 implies #[trigger] junction_ok(c[i], c[i + 1]) by {
        if i + 1 < a.len() {
            assert(c[i] == a[i] && c[i + 1] == a[i + 1]);
            assert(junction_ok(a[i], a[i + 1]));
        } else if i + 1 == a.len() {
            assert(c[i] == a.last() && c[i + 1] == b[0]);
        } else {
            let k = i - a.len();
            assert(c[i] == b[k] && c[i + 1] == b[k + 1]);
            assert(junction_ok(b[k], b[k + 1]));
        }
    }
}

pub proof fn lemma_clean_single(u: Unit)
    requires
        unit_ok(u),
    ensures
        clean(seq![u]),
{
}

/// The payload part of a frame is clean, starts with the Buffer code where
/// its first nibble repeats `prev` and ends with its last nibble.
pub proof fn lemma_spread_clean(ns: Seq<u8>, prev: u8)
    requires
        ns.len() > 0,
        forall|i: int| 0 <= i < ns.len() ==> #[trigger] ns[i] < 16,
        forall|i: int| 0 <= i < ns.len() - 1 ==> #[trigger] pair_ok(ns[i], ns[i + 1]),
        ns[0] == prev ==> ns[0] != 4 && ns[0] != BUFFER_HIGH && ns[0] != BUFFER_LOW,
    ensures
        clean(spread(ns, prev)),
        spread(ns, prev).len() > 0,
        spread(ns, prev)[0] == (if ns[0] == prev {
            Unit::Code(BUFFER)
        } else {
            Unit::Data(ns[0])
        }),
        spread(ns, prev).last() == Unit::Data(ns.last()),
    decreases ns.len(),
{
    let head = sep_units(ns[0], prev) + seq![Unit::Data(ns[0])];
    let rest = ns.drop_first();
    assert(clean(head)) by {
        if ns[0] == prev {
            lemma_clean_append(seq![Unit::Code(BUFFER)], seq![Unit::Data(ns[0])]);
        }
    }
    if rest.len() == 0 {
        assert(spread(rest, ns[0]) =~= Seq::<Unit>::empty());
        assert(spread(ns, prev) =~= head);
    } else {
        assert(pair_ok(ns[0], ns[1]));
        assert forall|i: int| 0 <= i < rest.len() - 1 implies #[trigger] pair_ok(
            rest[i],
            rest[i + 1],
        ) by {
            let j = i + 1;
            assert(rest[i] == ns[j] && rest[i + 1] == ns[j + 1]);
            assert(pair_ok(ns[j], ns[j + 1]));
        }
        lemma_spread_clean(rest, ns[0]);
        lemma_clean_append(head, spread(rest, ns[0]));
        assert(spread(ns, prev) == head + spread(rest, ns[0]));
    }
}

pub proof fn lemma_run_units_append(m: InputView, a: Seq<Unit>, b: Seq<Unit>)
    ensures
        run_units(m, a + b).0 == run_units(run_units(m, a).0, b).0,
        run_units(m, a + b).1 == run_units(m, a).1 + run_units(run_units(m, a).0, b).1,
    decreases a.len(),
{
    if a.len() == 0 {
        assert(a + b =~= b);
        assert(run_units(m, a).1 + run_units(m, b).1 =~= run_units(m, b).1);
    } else {
        let s = sm_step(m, token(a[0]));
        lemma_run_units_append(s.0, a.drop_first(), b);
        assert((a + b).drop_first() =~= a.drop_first() + b);
        assert((a + b)[0] == a[0]);
        assert(run_units(m, a + b).1 =~= run_units(m, a).1 + run_units(run_units(m, a).0, b).1);
    }
}

pub proof fn lemma_run_single(m: InputView, u: Unit)
    ensures
        run_units(m, seq![u]) == (sm_step(m, token(u)).0, seq![sm_step(m, token(u)).1]),
{
    let us = seq![u];
    assert(us.drop_first() =~= Seq::<Unit>::empty());
    let s = sm_step(m, token(u));
    assert(run_units(s.0, us.drop_first()) == (s.0, Seq::<CommandView>::empty()));
    assert(seq![s.1] + Seq::<CommandView>::empty() =~= seq![s.1]);
}

pub proof fn lemma_signals_nothing()
    ensures
        signals(seq![CommandView::Nothing]) == Seq::<CommandView>::empty(),
{
    let cs = seq![CommandView::Nothing];
    assert(cs.drop_last() =~= Seq::<CommandView>::empty());
    assert(signals(cs.drop_last()) == Seq::<CommandView>::empty());
}

/// While no frame is read, data nibbles change nothing and ask for nothing.
pub proof fn lemma_run_idle(m: InputView, us: Seq<Unit>)
    requires
        !m.reading,
        forall|i: int| 0 <= i < us.len() ==> #[trigger] us[i] is Data,
    ensures
        run_units(m, us).0 == m,
        signals(run_units(m, us).1) == Seq::<CommandView>::empty(),
    decreases us.len(),
{
    if us.len() > 0 {
        assert(us[0] is Data);
        let tail = us.drop_first();
        assert forall|i: int| 0 <= i < tail.len() implies #[trigger] tail[i] is Data by {
            assert(tail[i] == us[i + 1]);
        }
        lemma_run_idle(m, tail);
        let cs = run_units(m, us).1;
        let rest = run_units(m, tail).1;
        assert(cs == seq![CommandView::Nothing] + rest);
        lemma_signals_append(seq![CommandView::Nothing], rest);
        lemma_signals_nothing();
        assert(Seq::<CommandView>::empty() + signals(rest) =~= signals(rest));
    } else {
        assert(run_units(m, us).1 =~= Seq::<CommandView>::empty());
    }
}

pub proof fn lemma_idle_clean(prev: u8, k: nat)
    ensures
        clean(idle_units(prev, k)),
        idle_units(prev, k).len() == k,
        forall|i: int| 0 <= i < k ==> #[trigger] idle_units(prev, k)[i] is Data,
        k > 0 ==> idle_units(prev, k)[0] == Unit::Data(idle_after(prev)),
        k > 0 ==> idle_units(prev, k).last() == Unit::Data(idle_last(prev, k)),
        k > 0 ==> idle_last(prev, k) == 0 || idle_last(prev, k) == 0x0f,
        k == 0 ==> idle_last(prev, k) == prev,
    decreases k,
{
    if k > 0 {
        let next = idle_after(prev);
        lemma_idle_clean(next, (k - 1) as nat);
        let rest = idle_units(next, (k - 1) as nat);
        lemma_clean_single(Unit::Data(next));
        lemma_clean_append(seq![Unit::Data(next)], rest);
        let us = idle_units(prev, k);
        assert(us == seq![Unit::Data(next)] + rest);
        assert forall|i: int| 0 <= i < k implies #[trigger] us[i] is Data by {
            if i > 0 {
                assert(us[i] == rest[i - 1]);
            }
        }
        if k > 1 {
            assert(rest.last() == idle_units(prev, k).last());
        } else {
            assert(rest =~= Seq::<Unit>::empty());
        }
    }
}

/// The data nibbles of a frame, written one by one from nibble `i` on, fill
/// the data with the payload; the Buffer codes between them change nothing.
pub proof fn lemma_run_spread(m: InputView, s: Seq<u8>, i: nat, prev: u8)
    requires
        clean_payload(s),
        s.len() == DATA_LEN,
        m.reading,
        m.data.len() == DATA_LEN,
        m.data_index == i,
        i <= 2 * DATA_LEN,
        forall|t: int| 0 <= t < i / 2 ==> #[trigger] m.data[t] == s[t],
        i % 2 == 1 ==> m.data[i as int / 2] / 16 == s[i as int / 2] / 16,
        i < 2 * DATA_LEN && payload_nibbles(s)[i as int] == prev ==> prev != BUFFER_HIGH && prev
            != BUFFER_LOW,
    ensures
        run_units(m, spread(payload_nibbles(s).skip(i as int), prev)).0 == (InputView {
            data: s,
            data_index: 2 * DATA_LEN as nat,
            ..m
        }),
        signals(run_units(m, spread(payload_nibbles(s).skip(i as int), prev)).1)
            == Seq::<CommandView>::empty(),
    decreases 2 * DATA_LEN - i,
{
    let ns = payload_nibbles(s);
    let ii = i as int;
    let rest = ns.skip(i as int);
    if i == 2 * DATA_LEN {
        assert(rest =~= Seq::<u8>::empty());
        assert(m.data =~= s);
        assert(run_units(m, spread(rest, prev)).1 =~= Seq::<CommandView>::empty());
        assert(InputView { data: s, data_index: 2 * DATA_LEN as nat, ..m } == m);
    } else {
        let c = ns[i as int];
        assert(rest[0] == c);
        assert(rest.drop_first() =~= ns.skip(ii + 1));
        let sep = sep_units(c, prev);
        let head = sep + seq![Unit::Data(c)];
        assert(spread(rest, prev) == head + spread(ns.skip(ii + 1), c));
        // the separator, if any, is the Buffer code, which changes nothing
        let m1 = run_units(m, sep).0;
        assert(m1 == m && signals(run_units(m, sep).1) == Seq::<CommandView>::empty()) by {
            if c == prev {
                assert(sep == seq![Unit::Code(BUFFER)]);
                assert(token(Unit::Code(BUFFER)) == DecodedValue::EscapeCode(EscapeCode::Buffer));
                lemma_run_single(m, Unit::Code(BUFFER));
                lemma_signals_nothing();
            } else {
                assert(run_units(m, sep).1 =~= Seq::<CommandView>::empty());
            }
        }
        lemma_run_units_append(m, sep, seq![Unit::Data(c)]);
        let m2 = run_units(m1, seq![Unit::Data(c)]).0;
        lemma_run_single(m1, Unit::Data(c));
        lemma_signals_nothing();
        let b = m.data[ii / 2];
        assert(c < 16);
        assert(m2 == InputView {
            data: set_nibble(m.data, i, c),
            data_index: i + 1,
            ..m
        });
        lemma_signals_append(run_units(m, sep).1, seq![CommandView::Nothing]);
        let d2 = m2.data;
        assert forall|t: int| 0 <= t < (ii + 1) / 2 implies #[trigger] d2[t] == s[t] by {
            if t == ii / 2 {
                assert(i % 2 == 1);
                assert(d2[t] == (b - b % 16 + c) as u8);
                assert(c == s[t] % 16);
                assert(b / 16 == s[t] / 16);
                assert(b - b % 16 == (b / 16) * 16);
                assert(s[t] == (s[t] / 16) * 16 + s[t] % 16);
            }
        }
        assert((i + 1) % 2 == 1 ==> d2[(ii + 1) / 2] / 16 == s[(ii + 1) / 2] / 16) by {
            if (i + 1) % 2 == 1 {
                assert(i % 2 == 0);
                assert(d2[ii / 2] == (c * 16 + b % 16) as u8);
                assert(c == s[ii / 2] / 16);
            }
        }
        if i + 1 < 2 * DATA_LEN && ns[ii + 1] == c {
            assert(pair_ok(ns[i as int], ns[ii + 1]));
        }
        lemma_run_spread(m2, s, i + 1, c);
        lemma_run_units_append(m, head, spread(ns.skip(ii + 1), c));
        lemma_signals_append(
            run_units(m, head).1,
            run_units(m2, spread(ns.skip(ii + 1), c)).1,
        );
    }
}

/// A whole frame taken by a state machine that waits for one: the data is
/// the payload, the frame is handed over, and the machine waits again.
pub proof fn lemma_run_frame(m: InputView, s: Seq<u8>, prev: u8)
    requires
        !m.reading,
        m.data.len() == DATA_LEN,
        prev != SOF / 16,
        clean_payload(s),
        s.len() == DATA_LEN,
    ensures
        run_units(m, frame_units(s, prev)).0 == (InputView {
            reading: false,
            data: s,
            data_index: 0,
            ..m
        }),
        signals(run_units(m, frame_units(s, prev)).1) == seq![CommandView::Received(s)],
{
    let ns = payload_nibbles(s);
    let sep1 = sep_units(SOF / 16, prev);
    let a = sep1 + seq![Unit::Code(SOF)];
    let b = spread(ns, SOF % 16);
    let sep2 = sep_units(EOF / 16, ns.last());
    let c = seq![Unit::Code(EOF)];
    assert(sep1 =~= Seq::<Unit>::empty());
    assert(a =~= seq![Unit::Code(SOF)]);
    lemma_run_single(m, Unit::Code(SOF));
    assert(token(Unit::Code(SOF)) == DecodedValue::EscapeCode(EscapeCode::StartOfFrame));
    let m1 = InputView { reading: true, data_index: 0, ..m };
    assert(run_units(m, a).0 == m1);
    lemma_signals_nothing();
    lemma_run_spread(m1, s, 0, SOF % 16);
    assert(ns.skip(0) =~= ns);
    let m2 = InputView { data: s, data_index: 2 * DATA_LEN as nat, ..m1 };
    lemma_run_units_append(m, a, b);
    lemma_signals_append(run_units(m, a).1, run_units(m1, b).1);
    assert(run_units(m2, sep2).0 == m2 && signals(run_units(m2, sep2).1) == Seq::<
        CommandView,
    >::empty()) by {
        if ns.last() == EOF / 16 {
            assert(sep2 == seq![Unit::Code(BUFFER)]);
            assert(token(Unit::Code(BUFFER)) == DecodedValue::EscapeCode(EscapeCode::Buffer));
            lemma_run_single(m2, Unit::Code(BUFFER));
        } else {
            assert(sep2 =~= Seq::<Unit>::empty());
            assert(run_units(m2, sep2).1 =~= Seq::<CommandView>::empty());
        }
    }
    lemma_run_units_append(m, a + b, sep2);
    lemma_signals_append(run_units(m, a + b).1, run_units(m2, sep2).1);
    lemma_run_single(m2, Unit::Code(EOF));
    assert(token(Unit::Code(EOF)) == DecodedValue::EscapeCode(EscapeCode::EndOfFrame));
    assert(sm_step(m2, token(Unit::Code(EOF))).1 == CommandView::Received(s));
    lemma_run_units_append(m, a + b + sep2, c);
    lemma_signals_append(run_units(m, a + b + sep2).1, run_units(m2, c).1);
    let r = seq![CommandView::Received(s)];
    assert(r.drop_last() =~= Seq::<CommandView>::empty());
    assert(signals(r) == signals(r.drop_last()).push(CommandView::Received(s)));
    assert(signals(r) =~= r);
    assert(Seq::<CommandView>::empty() + Seq::<CommandView>::empty() =~= Seq::<CommandView>::empty());
    assert(Seq::<CommandView>::empty() + r =~= r);
}

/// The line of one frame: `before` idle nibbles after the nibble `prev`, the
/// frame, and `after` idle nibbles.
pub open spec fn frame_line(s: Seq<u8>, prev: u8, before: nat, after: nat) -> Seq<Unit> {
    idle_units(prev, before) + frame_units(s, idle_last(prev, before)) + idle_units(
        EOF % 16,
        after,
    )
}

pub proof fn lemma_start_monotone(us: Seq<Unit>, j1: int, j2: int)
    requires
        0 <= j1 <= j2 <= us.len(),
    ensures
        start(us, j1) <= start(us, j2),
{
    assert(us.take(j2) =~= us.take(j1) + us.subrange(j1, j2));
    lemma_flatten_append(us.take(j1), us.subrange(j1, j2));
}

/// A decoder waiting for a frame reads from the line of a frame with a clean
/// payload exactly one command: the payload, received. The idle nibbles
/// before and after the frame change nothing, and neither do the Buffer
/// codes between equal nibbles; the two idle nibbles after the frame are
/// what lets the decoder see its end.
#[verifier::rlimit(60)]
pub proof fn lemma_frame_round_trip(m: InputView, s: Seq<u8>, before: nat, after: nat)
    requires
        input_inv(m),
        !m.reading,
        m.pending.len() == 0,
        m.last == 0 || m.last == 0x0f,
        s.len() == DATA_LEN,
        clean_payload(s),
        after >= 2,
    ensures
        signals(feed(m, flatten(frame_line(s, m.last, before, after))).1) == seq![
            CommandView::Received(s),
        ],
{
    let l = idle_last(m.last, before);
    let i1 = idle_units(m.last, before);
    let f = frame_units(s, l);
    let i2 = idle_units(EOF % 16, after);
    let us = frame_line(s, m.last, before, after);
    let ns = payload_nibbles(s);
    lemma_idle_clean(m.last, before);
    lemma_idle_clean(EOF % 16, after);
    assert(l == 0 || l == 0x0f);
    // the frame is clean
    let sep1 = sep_units(SOF / 16, l);
    let b = spread(ns, SOF % 16);
    let sep2 = sep_units(EOF / 16, ns.last());
    assert(sep1 =~= Seq::<Unit>::empty());
    assert forall|i: int| 0 <= i < ns.len() implies #[trigger] ns[i] < 16 by {}
    assert forall|i: int| 0 <= i < ns.len() - 1 implies #[trigger] pair_ok(ns[i], ns[i + 1]) by {}
    lemma_spread_clean(ns, SOF % 16);
    let a = sep1 + seq![Unit::Code(SOF)];
    assert(a =~= seq![Unit::Code(SOF)]);
    lemma_clean_single(Unit::Code(SOF));
    lemma_clean_append(a, b);
    assert(clean(sep2) && (sep2.len() > 0 ==> sep2[0] == Unit::Code(BUFFER) && sep2.last()
        == Unit::Code(BUFFER))) by {
        if ns.last() == EOF / 16 {
            assert(sep2 == seq![Unit::Code(BUFFER)]);
        } else {
            assert(sep2 =~= Seq::<Unit>::empty());
        }
    }
    let ab = a + b;
    assert(ab.last() == b.last());
    lemma_clean_append(ab, sep2);
    let abs = ab + sep2;
    assert(abs.last() == (if sep2.len() > 0 {
        Unit::Code(BUFFER)
    } else {
        b.last()
    }));
    lemma_clean_single(Unit::Code(EOF));
    lemma_clean_append(abs, seq![Unit::Code(EOF)]);
    assert(f == abs + seq![Unit::Code(EOF)]);
    assert(f[0] == Unit::Code(SOF));
    assert(f.last() == Unit::Code(EOF));
    if before > 0 {
        assert(i1.last() == Unit::Data(l));
        assert(junction_ok(i1.last(), f[0]));
    }
    lemma_clean_append(i1, f);
    assert((i1 + f).last() == Unit::Code(EOF));
    assert(i2[0] == Unit::Data(idle_after(EOF % 16)));
    lemma_clean_append(i1 + f, i2);
    assert(clean(us));
    // the first nibble makes an edge
    lemma_clean_nibbles(us);
    assert(us.len() > 0);
    assert(flatten(us)[0] != m.last) by {
        if before > 0 {
            assert(us[0] == i1[0]);
        } else {
            assert(i1 =~= Seq::<Unit>::empty());
            assert(us[0] == f[0]);
        }
    }
    let w = flatten(us);
    let j = lemma_feed(m, us, w.len());
    assert(w.take(w.len() as int) =~= w);
    // the decoder has got past the end of the frame
    let e = (i1.len() + f.len()) as int;
    assert(us.take(e) =~= i1 + f);
    assert(us.skip(e) =~= i2);
    lemma_flatten_append(i1 + f, i2);
    assert(us =~= us.take(e) + us.skip(e));
    lemma_flatten_append(us.take(e), us.skip(e));
    assert(flatten(i2).len() == after) by {
        lemma_flatten_len_data(i2);
    }
    assert(us[e - 1] == Unit::Code(EOF));
    lemma_start_next(us, e - 1);
    assert(j >= e) by {
        if j < e {
            lemma_start_monotone(us, j as int, e - 1);
        }
    }
    let tail = us.subrange(e, j as int);
    assert(us.take(j as int) =~= (i1 + f) + tail);
    assert forall|i: int| 0 <= i < tail.len() implies #[trigger] tail[i] is Data by {
        assert(tail[i] == i2[i]);
    }
    lemma_run_units_append(m, i1 + f, tail);
    lemma_run_units_append(m, i1, f);
    lemma_run_idle(m, i1);
    lemma_run_frame(m, s, l);
    let m3 = run_units(m, i1 + f).0;
    lemma_run_idle(m3, tail);
    lemma_signals_append(run_units(m, i1).1, run_units(m, f).1);
    lemma_signals_append(run_units(m, i1 + f).1, run_units(m3, tail).1);
    assert(Seq::<CommandView>::empty() + seq![CommandView::Received(s)] =~= seq![
        CommandView::Received(s),
    ]);
    assert(seq![CommandView::Received(s)] + Seq::<CommandView>::empty() =~= seq![
        CommandView::Received(s),
    ]);
}

pub proof fn lemma_flatten_len_data(us: Seq<Unit>)
    requires
        forall|i: int| 0 <= i < us.len() ==> #[trigger] us[i] is Data,
    ensures
        flatten(us).len() == us.len(),
    decreases us.len(),
{
    if us.len() > 0 {
        let tail = us.drop_first();
        assert forall|i: int| 0 <= i < tail.len() implies #[trigger] tail[i] is Data by {
            assert(tail[i] == us[i + 1]);
        }
        lemma_flatten_len_data(tail);
        assert(us[0] is Data);
    }
}

pub proof fn lemma_emitted_append(m: OutputView, a: nat, b: nat)
    ensures
        emitted(m, a + b) == emitted(m, a) + emitted(after_steps(m, a), b),
        after_steps(m, a + b) == after_steps(after_steps(m, a), b),
    decreases a,
{
    if a == 0 {
        assert(emitted(m, 0) + emitted(m, b) =~= emitted(m, b));
    } else {
        lemma_emitted_append(next_step(m).0, (a - 1) as nat, b);
        assert((a + b - 1) as nat == (a - 1) as nat + b);
        assert(emitted(m, a + b) =~= emitted(m, a) + emitted(after_steps(m, a), b));
    }
}

/// The nibbles of a frame, in the order they are sent.
pub open spec fn frame_nibbles(frame: Seq<u8>) -> Seq<u8> {
    Seq::new(2 * frame.len(), |k: int| frame_nibble(frame, k as nat))
}

pub proof fn lemma_sep_flatten(c: u8, prev: u8)
    requires
        c == prev,
    ensures
        flatten(sep_units(c, prev)) == separator(c),
{
    let u = sep_units(c, prev);
    assert(u.len() == 1);
    assert(u =~= seq![u[0]]);
    lemma_flatten_single(u[0]);
    if c != BUFFER_HIGH && c != BUFFER_LOW {
        assert(unit_nibbles(Unit::Code(BUFFER)) =~= seq![BUFFER_HIGH, BUFFER_LOW]);
    }
}

/// An output stream in the middle of a frame sends the rest of the frame's
/// nibbles, with the Buffer code between equal ones, and stops at its end.
pub proof fn lemma_emit_nibbles(m: OutputView)
    requires
        output_inv(m),
        m.writing,
        m.pending.len() == 0,
    ensures
        emitted(
            m,
            flatten(spread(frame_nibbles(m.frame).skip(m.index as int), m.last)).len(),
        ) == flatten(spread(frame_nibbles(m.frame).skip(m.index as int), m.last)),
        after_steps(
            m,
            flatten(spread(frame_nibbles(m.frame).skip(m.index as int), m.last)).len(),
        ) == (OutputView {
            index: 2 * FRAME_LEN as nat,
            last: if m.index < 2 * FRAME_LEN {
                frame_nibbles(m.frame).last()
            } else {
                m.last
            },
            ..m
        }),
    decreases 2 * FRAME_LEN - m.index,
{
    let fns = frame_nibbles(m.frame);
    let rest = fns.skip(m.index as int);
    if m.index == 2 * FRAME_LEN {
        assert(rest =~= Seq::<u8>::empty());
        assert(flatten(spread(rest, m.last)) =~= Seq::<u8>::empty());
    } else {
        let i = m.index as int;
        let c = fns[i];
        assert(c == frame_nibble(m.frame, m.index));
        assert(rest[0] == c);
        assert(rest.drop_first() =~= fns.skip(i + 1));
        let sep = sep_units(c, m.last);
        let head = sep + seq![Unit::Data(c)];
        let tail = spread(fns.skip(i + 1), c);
        assert(spread(rest, m.last) == head + tail);
        lemma_flatten_append(head, tail);
        lemma_flatten_append(sep, seq![Unit::Data(c)]);
        lemma_flatten_single(Unit::Data(c));
        let m1 = OutputView { index: m.index + 1, last: c, ..m };
        crate::output::lemma_next_step(m);
        // the nibble, and the separator before it, go out in the next steps
        let k = flatten(head).len();
        assert(emitted(m, k) == flatten(head) && after_steps(m, k) == m1) by {
            if c != m.last {
                assert(sep =~= Seq::<Unit>::empty());
                assert(flatten(sep) =~= Seq::<u8>::empty());
                assert(flatten(head) =~= seq![c]);
                assert(next_step(m) == (m1, c));
                assert(emitted(m1, 0) =~= Seq::<u8>::empty());
                assert(emitted(m, 1) =~= seq![c]);
                assert(after_steps(m1, 0) == m1);
                assert(after_steps(m, 1) == m1);
            } else {
                lemma_sep_flatten(c, m.last);
                let sq = separator(c).push(c);
                let s1 = OutputView { index: m.index + 1, pending: sq.drop_first(), last: sq[0], ..m };
                assert(next_step(m) == (s1, sq[0]));
                assert(flatten(head) =~= sq);
                if separator(c).len() == 1 {
                    assert(s1.pending =~= seq![c]);
                    let s2 = next_step(s1).0;
                    assert(s2.pending =~= m.pending);
                    assert(s2 == m1);
                    assert(emitted(s2, 0) =~= Seq::<u8>::empty());
                    assert(emitted(s1, 1) =~= seq![c]);
                    assert(emitted(m, 2) =~= sq);
                    assert(after_steps(s2, 0) == s2);
                    assert(after_steps(s1, 1) == s2);
                    assert(after_steps(m, 2) == s2);
                    assert(k == 2);
                } else {
                    assert(s1.pending =~= seq![BUFFER_LOW, c]);
                    let s2 = next_step(s1).0;
                    assert(next_step(s1).1 == BUFFER_LOW);
                    assert(s2.pending =~= seq![c]);
                    let s3 = next_step(s2).0;
                    assert(next_step(s2).1 == c);
                    assert(s3.pending =~= m.pending);
                    assert(s3 == m1);
                    assert(emitted(s3, 0) =~= Seq::<u8>::empty());
                    assert(emitted(s2, 1) =~= seq![c]);
                    assert(emitted(s1, 2) =~= seq![BUFFER_LOW, c]);
                    assert(emitted(m, 3) =~= sq);
                    assert(after_steps(s3, 0) == s3);
                    assert(after_steps(s2, 1) == s3);
                    assert(after_steps(s1, 2) == s3);
                    assert(after_steps(m, 3) == s3);
                    assert(k == 3);
                }
            }
        }
        assert(output_inv(m1)) by {
            assert(c < 16);
        }
        lemma_emit_nibbles(m1);
        assert(fns.skip(m1.index as int) == fns.skip(i + 1));
        lemma_emitted_append(m, k, flatten(tail).len());
        if i + 1 == 2 * FRAME_LEN {
            assert(fns.last() == c);
        }
    }
}

/// An output stream with nothing left to send sends the idle pattern.
pub proof fn lemma_emit_idle(m: OutputView, k: nat)
    requires
        output_inv(m),
        m.pending.len() == 0,
        !m.writing || m.index == 2 * FRAME_LEN,
    ensures
        emitted(m, k) == flatten(idle_units(m.last, k)),
        after_steps(m, k).last == idle_last(m.last, k),
        output_inv(after_steps(m, k)),
        after_steps(m, k).pending.len() == 0,
        k > 0 ==> !after_steps(m, k).writing,
        k == 0 ==> after_steps(m, k) == m,
    decreases k,
{
    if k > 0 {
        let m1 = next_step(m).0;
        assert(next_step(m).1 == idle_after(m.last));
        crate::output::lemma_next_step(m);
        lemma_emit_idle(m1, (k - 1) as nat);
        let us = idle_units(m.last, k);
        assert(us == seq![Unit::Data(idle_after(m.last))] + idle_units(idle_after(m.last), (k - 1) as nat));
        lemma_flatten_append(seq![Unit::Data(idle_after(m.last))], idle_units(idle_after(m.last), (k - 1) as nat));
        lemma_flatten_single(Unit::Data(idle_after(m.last)));
        assert(emitted(m, k) =~= flatten(us));
        if k > 1 {
            assert(!after_steps(m1, (k - 1) as nat).writing);
        }
    }
}

pub proof fn lemma_spread_append(a: Seq<u8>, b: Seq<u8>, prev: u8)
    requires
        a.len() > 0,
    ensures
        spread(a + b, prev) == spread(a, prev) + spread(b, a.last()),
    decreases a.len(),
{
    let ab = a + b;
    assert(ab[0] == a[0]);
    assert(ab.drop_first() =~= a.drop_first() + b);
    if a.len() == 1 {
        assert(a.drop_first() =~= Seq::<u8>::empty());
        assert(a.drop_first() + b =~= b);
        assert(spread(a.drop_first(), a[0]) =~= Seq::<Unit>::empty());
        assert(spread(a, prev) =~= sep_units(a[0], prev) + seq![Unit::Data(a[0])]);
    } else {
        lemma_spread_append(a.drop_first(), b, a[0]);
        assert(a.drop_first().last() == a.last());
    }
}

/// The nibbles a frame with payload `s` goes out as are those of its line.
#[verifier::rlimit(60)]
pub proof fn lemma_frame_nibbles_line(s: Seq<u8>, prev: u8)
    requires
        s.len() == DATA_LEN,
    ensures
        flatten(spread(frame_nibbles(crate::frame::frame_of(s)), prev)) == flatten(
            frame_units(s, prev),
        ),
        frame_nibbles(crate::frame::frame_of(s)).last() == EOF % 16,
{
    let fr = crate::frame::frame_of(s);
    let fns = frame_nibbles(fr);
    let ns = payload_nibbles(s);
    assert(fns =~= seq![SOF / 16, SOF % 16] + ns + seq![EOF / 16, EOF % 16]);
    let p1 = seq![SOF / 16, SOF % 16];
    let p3 = seq![EOF / 16, EOF % 16];
    lemma_spread_append(p1, ns + p3, prev);
    assert(p1 + ns + p3 =~= p1 + (ns + p3));
    lemma_spread_append(ns, p3, SOF % 16);
    // SOF's nibbles
    assert(p1.drop_first() =~= seq![SOF % 16]);
    assert(seq![SOF % 16].drop_first() =~= Seq::<u8>::empty());
    assert(spread(seq![SOF % 16].drop_first(), SOF % 16) =~= Seq::<Unit>::empty());
    assert(sep_units(SOF % 16, SOF / 16) =~= Seq::<Unit>::empty());
    assert(spread(seq![SOF % 16], SOF / 16) =~= seq![Unit::Data(SOF % 16)]);
    assert(spread(p1, prev) =~= sep_units(SOF / 16, prev) + seq![Unit::Data(SOF / 16)] + seq![
        Unit::Data(SOF % 16),
    ]);
    // EOF's nibbles
    assert(p3.drop_first() =~= seq![EOF % 16]);
    assert(seq![EOF % 16].drop_first() =~= Seq::<u8>::empty());
    assert(spread(seq![EOF % 16].drop_first(), EOF % 16) =~= Seq::<Unit>::empty());
    assert(sep_units(EOF % 16, EOF / 16) =~= Seq::<Unit>::empty());
    assert(spread(seq![EOF % 16], EOF / 16) =~= seq![Unit::Data(EOF % 16)]);
    assert(spread(p3, ns.last()) =~= sep_units(EOF / 16, ns.last()) + seq![Unit::Data(EOF / 16)]
        + seq![Unit::Data(EOF % 16)]);
    let d1 = seq![Unit::Data(SOF / 16)] + seq![Unit::Data(SOF % 16)];
    let d3 = seq![Unit::Data(EOF / 16)] + seq![Unit::Data(EOF % 16)];
    assert(flatten(d1) == flatten(seq![Unit::Code(SOF)])) by {
        lemma_flatten_append(seq![Unit::Data(SOF / 16)], seq![Unit::Data(SOF % 16)]);
        lemma_flatten_single(Unit::Data(SOF / 16));
        lemma_flatten_single(Unit::Data(SOF % 16));
        lemma_flatten_single(Unit::Code(SOF));
        assert(flatten(d1) =~= flatten(seq![Unit::Code(SOF)]));
    }
    assert(flatten(d3) == flatten(seq![Unit::Code(EOF)])) by {
        lemma_flatten_append(seq![Unit::Data(EOF / 16)], seq![Unit::Data(EOF % 16)]);
        lemma_flatten_single(Unit::Data(EOF / 16));
        lemma_flatten_single(Unit::Data(EOF % 16));
        lemma_flatten_single(Unit::Code(EOF));
        assert(flatten(d3) =~= flatten(seq![Unit::Code(EOF)]));
    }
    let sep1 = sep_units(SOF / 16, prev);
    let b = spread(ns, SOF % 16);
    let sep2 = sep_units(EOF / 16, ns.last());
    let lhs = sep1 + d1 + b + sep2 + d3;
    assert(spread(fns, prev) =~= lhs);
    lemma_flatten_append(sep1 + d1 + b + sep2, d3);
    lemma_flatten_append(sep1 + d1 + b, sep2);
    lemma_flatten_append(sep1 + d1, b);
    lemma_flatten_append(sep1, d1);
    let rhs = frame_units(s, prev);
    let c1 = seq![Unit::Code(SOF)];
    let c3 = seq![Unit::Code(EOF)];
    assert(rhs == sep1 + c1 + b + sep2 + c3);
    lemma_flatten_append(sep1 + c1 + b + sep2, c3);
    lemma_flatten_append(sep1 + c1 + b, sep2);
    lemma_flatten_append(sep1 + c1, b);
    lemma_flatten_append(sep1, c1);
}

/// A clean payload holds no control byte, so the escape encoder leaves it
/// as it is.
pub proof fn lemma_clean_payload_unescaped(s: Seq<u8>)
    requires
        clean_payload(s),
    ensures
        escape_encode(s) == s,
{
    let ns = payload_nibbles(s);
    assert forall|t: int| 0 <= t < s.len() implies !is_escape(#[trigger] s[t]) by {
        assert(ns[2 * t] == s[t] / 16 && ns[2 * t + 1] == s[t] % 16);
        assert(pair_ok(ns[2 * t], ns[2 * t + 1]));
        assert(byte_of(s[t] / 16, s[t] % 16) == s[t]);
    }
    lemma_escape_free(s);
}

pub proof fn lemma_escape_free(s: Seq<u8>)
    requires
        forall|t: int| 0 <= t < s.len() ==> !is_escape(#[trigger] s[t]),
    ensures
        escape_encode(s) == s,
    decreases s.len(),
{
    if s.len() > 0 {
        let rest = s.drop_first();
        assert forall|t: int| 0 <= t < rest.len() implies !is_escape(#[trigger] rest[t]) by {
            assert(rest[t] == s[t + 1]);
        }
        lemma_escape_free(rest);
        assert(!is_escape(s[0]));
        assert(escape_encode(s) =~= s);
    }
}

/// Round trip over a perfect line, for one frame's worth of bytes whose
/// payload is clean (`clean_payload`): sent through the escape encoder, the
/// packer and an output stream, it comes out of an input stream as exactly
/// one received frame that holds the same bytes. Any number of idle nibbles
/// before the frame, and two or more after it, change nothing; nor do the
/// Buffer codes put between equal nibbles.
///
/// Other payloads do not come back. One that holds a control byte is sent
/// with that byte doubled, which the decoder reads as a single byte, so the
/// frame ends short and is answered with `ResendLastFrame`; so is one in
/// which neighbouring nibbles form a control byte, or a 4 repeats.
pub proof fn lemma_round_trip(s: Seq<u8>, o: OutputView, m: InputView, before: nat, after: nat)
    requires
        s.len() == DATA_LEN,
        clean_payload(s),
        output_inv(o),
        !o.writing,
        o.pending.len() == 0,
        input_inv(m),
        !m.reading,
        m.pending.len() == 0,
        o.last == m.last,
        m.last == 0 || m.last == 0x0f,
        after >= 2,
    ensures
        escape_encode(s) == s,
        ({
            let o1 = after_steps(o, before);
            let o2 = armed(o1, escape_encode(s));
            let line = emitted(o, before) + emitted(
                o2,
                flatten(frame_units(s, o1.last)).len() + after,
            );
            signals(feed(m, line).1) == seq![CommandView::Received(s)]
        }),
{
    lemma_clean_payload_unescaped(s);
    lemma_emit_idle(o, before);
    let o1 = after_steps(o, before);
    let l = o1.last;
    assert(frame_take(s.len()) == s.len());
    assert(s.take(s.len() as int) =~= s);
    let o2 = armed(o1, escape_encode(s));
    assert(o2.frame == frame_of(s));
    assert(output_inv(o2)) by {
        assert(o2.pending.len() == 0);
    }
    lemma_frame_nibbles_line(s, l);
    assert(frame_nibbles(o2.frame).skip(0) =~= frame_nibbles(o2.frame));
    lemma_emit_nibbles(o2);
    let nf = flatten(frame_units(s, l)).len();
    let o3 = after_steps(o2, nf);
    assert(o3.last == EOF % 16 && o3.index == 2 * FRAME_LEN && o3.pending.len() == 0);
    lemma_emit_idle(o3, after);
    lemma_emitted_append(o2, nf, after);
    let i1 = idle_units(o.last, before);
    let f = frame_units(s, l);
    let i2 = idle_units(EOF % 16, after);
    lemma_flatten_append(i1 + f, i2);
    lemma_flatten_append(i1, f);
    let line = emitted(o, before) + emitted(o2, nf + after);
    assert(line =~= flatten(frame_line(s, m.last, before, after)));
    lemma_frame_round_trip(m, s, before, after);
}

/// Edge immunity: stretches of the idle pattern of any length before a
/// frame, and of two nibbles or more after it, do not change what the
/// decoder reads from the line.
pub proof fn lemma_edge_immunity(
    m: InputView,
    s: Seq<u8>,
    before1: nat,
    after1: nat,
    before2: nat,
    after2: nat,
)
    requires
        input_inv(m),
        !m.reading,
        m.pending.len() == 0,
        m.last == 0 || m.last == 0x0f,
        s.len() == DATA_LEN,
        clean_payload(s),
        after1 >= 2,
        after2 >= 2,
    ensures
        signals(feed(m, flatten(frame_line(s, m.last, before1, after1))).1) == signals(
            feed(m, flatten(frame_line(s, m.last, before2, after2))).1,
        ),
{
    lemma_frame_round_trip(m, s, before1, after1);
    lemma_frame_round_trip(m, s, before2, after2);
}

/// `us` without its Buffer codes.
pub open spec fn strip_buffers(us: Seq<Unit>) -> Seq<Unit>
    decreases us.len(),
{
    if us.len() == 0 {
        Seq::empty()
    } else if us[0] == Unit::Code(BUFFER) {
        strip_buffers(us.drop_first())
    } else {
        seq![us[0]] + strip_buffers(us.drop_first())
    }
}

/// The Buffer code is filler: in whatever state, a run of units with Buffer
/// codes among them ends in the same state, with the same signals, as the
/// run without them.
pub proof fn lemma_buffer_transparent(m: InputView, us: Seq<Unit>)
    ensures
        run_units(m, us).0 == run_units(m, strip_buffers(us)).0,
        signals(run_units(m, us).1) == signals(run_units(m, strip_buffers(us)).1),
    decreases us.len(),
{
    if us.len() > 0 {
        let rest = us.drop_first();
        let st = sm_step(m, token(us[0]));
        if us[0] == Unit::Code(BUFFER) {
            assert(token(Unit::Code(BUFFER)) == DecodedValue::EscapeCode(EscapeCode::Buffer));
            assert(st == (m, CommandView::Nothing));
            lemma_buffer_transparent(m, rest);
            lemma_signals_append(seq![CommandView::Nothing], run_units(m, rest).1);
            lemma_signals_nothing();
            assert(Seq::<CommandView>::empty() + signals(run_units(m, rest).1) =~= signals(
                run_units(m, rest).1,
            ));
        } else {
            lemma_buffer_transparent(st.0, rest);
            let t = seq![us[0]] + strip_buffers(rest);
            assert(t[0] == us[0]);
            assert(t.drop_first() =~= strip_buffers(rest));
            lemma_signals_append(seq![st.1], run_units(st.0, rest).1);
            lemma_signals_append(seq![st.1], run_units(st.0, strip_buffers(rest)).1);
        }
    }
}

/// The line of a run of frames with payloads `ss`: each frame with
/// `before` idle nibbles ahead of it and `after` behind it.
pub open spec fn frames_line(ss: Seq<Seq<u8>>, prev: u8, before: nat, after: nat) -> Seq<Unit>
    decreases ss.len(),
{
    if ss.len() == 0 {
        Seq::empty()
    } else {
        frame_line(ss[0], prev, before, after) + frames_line(
            ss.drop_first(),
            idle_last(EOF % 16, after),
            before,
            after,
        )
    }
}

/// One received frame for each payload, in order.
pub open spec fn received_all(ss: Seq<Seq<u8>>) -> Seq<CommandView> {
    Seq::new(ss.len(), |i: int| CommandView::Received(ss[i]))
}

/// Payloads that each fill a frame and read back from the line.
pub open spec fn clean_payloads(ss: Seq<Seq<u8>>) -> bool {
    forall|i: int| 0 <= i < ss.len() ==> #[trigger] ss[i].len() == DATA_LEN && clean_payload(ss[i])
}

/// The line of a run of frames is clean, joins cleanly to the idle nibble
/// `prev` before it, and ends on an EOF followed by `after` idle nibbles.
pub proof fn lemma_frames_clean(ss: Seq<Seq<u8>>, prev: u8, before: nat, after: nat)
    requires
        clean_payloads(ss),
        ss.len() > 0,
        prev == 0 || prev == 0x0f,
        after >= 2,
    ensures
        clean(frames_line(ss, prev, before, after)),
        junction_ok(Unit::Data(prev), frames_line(ss, prev, before, after)[0]),
        frames_line(ss, prev, before, after).len() > after,
        frames_line(ss, prev, before, after)[frames_line(ss, prev, before, after).len() - after
            - 1] == Unit::Code(EOF),
        forall|k: int|
            frames_line(ss, prev, before, after).len() - after <= k < frames_line(
                ss,
                prev,
                before,
                after,
            ).len() ==> #[trigger] frames_line(ss, prev, before, after)[k] is Data,
    decreases ss.len(),
{
    let s = ss[0];
    assert(s.len() == DATA_LEN && clean_payload(s));
    let l = idle_last(prev, before);
    let i1 = idle_units(prev, before);
    let f = frame_units(s, l);
    let i2 = idle_units(EOF % 16, after);
    let block = frame_line(s, prev, before, after);
    lemma_idle_clean(prev, before);
    lemma_idle_clean(EOF % 16, after);
    lemma_frame_units_clean(s, l);
    if before > 0 {
        assert(i1.last() == Unit::Data(l));
        assert(junction_ok(i1.last(), f[0]));
    }
    lemma_clean_append(i1, f);
    assert((i1 + f).last() == Unit::Code(EOF));
    assert(i2[0] == Unit::Data(idle_after(EOF % 16)));
    lemma_clean_append(i1 + f, i2);
    assert(block == (i1 + f) + i2);
    assert(block[0] == (if before > 0 {
        i1[0]
    } else {
        f[0]
    }));
    let rest = ss.drop_first();
    let us = frames_line(ss, prev, before, after);
    if rest.len() == 0 {
        assert(frames_line(rest, idle_last(EOF % 16, after), before, after) =~= Seq::<Unit>::empty());
        assert(us =~= block);
        assert(block[block.len() - after - 1] == f.last());
        assert forall|k: int| block.len() - after <= k < block.len() implies #[trigger] block[k] is Data by {
            assert(block[k] == i2[k - (i1 + f).len()]);
        }
    } else {
        let p2 = idle_last(EOF % 16, after);
        assert(clean_payloads(rest)) by {
            assert forall|i: int| 0 <= i < rest.len() implies #[trigger] rest[i].len() == DATA_LEN
                && clean_payload(rest[i]) by {
                assert(rest[i] == ss[i + 1]);
            }
        }
        lemma_frames_clean(rest, p2, before, after);
        let tail = frames_line(rest, p2, before, after);
        assert(block.last() == Unit::Data(p2));
        lemma_clean_append(block, tail);
        assert(us == block + tail);
        assert(us[us.len() - after - 1] == tail[tail.len() - after - 1]);
        assert forall|k: int| us.len() - after <= k < us.len() implies #[trigger] us[k] is Data by {
            assert(us[k] == tail[k - block.len()]);
        }
    }
}

/// The frame part of a frame's line is clean, from SOF to EOF.
pub proof fn lemma_frame_units_clean(s: Seq<u8>, l: u8)
    requires
        s.len() == DATA_LEN,
        clean_payload(s),
        l == 0 || l == 0x0f,
    ensures
        clean(frame_units(s, l)),
        frame_units(s, l)[0] == Unit::Code(SOF),
        frame_units(s, l).last() == Unit::Code(EOF),
{
    let f = frame_units(s, l);
    let ns = payload_nibbles(s);
    let sep1 = sep_units(SOF / 16, l);
    let b = spread(ns, SOF % 16);
    let sep2 = sep_units(EOF / 16, ns.last());
    assert(sep1 =~= Seq::<Unit>::empty());
    assert forall|i: int| 0 <= i < ns.len() implies #[trigger] ns[i] < 16 by {}
    assert forall|i: int| 0 <= i < ns.len() - 1 implies #[trigger] pair_ok(ns[i], ns[i + 1]) by {}
    lemma_spread_clean(ns, SOF % 16);
    let a = sep1 + seq![Unit::Code(SOF)];
    assert(a =~= seq![Unit::Code(SOF)]);
    lemma_clean_single(Unit::Code(SOF));
    lemma_clean_append(a, b);
    assert(clean(sep2) && (sep2.len() > 0 ==> sep2[0] == Unit::Code(BUFFER) && sep2.last()
        == Unit::Code(BUFFER))) by {
        if ns.last() == EOF / 16 {
            assert(sep2 == seq![Unit::Code(BUFFER)]);
        } else {
            assert(sep2 =~= Seq::<Unit>::empty());
        }
    }
    let ab = a + b;
    assert(ab.last() == b.last());
    lemma_clean_append(ab, sep2);
    let abs = ab + sep2;
    assert(abs.last() == (if sep2.len() > 0 {
        Unit::Code(BUFFER)
    } else {
        b.last()
    }));
    lemma_clean_single(Unit::Code(EOF));
    lemma_clean_append(abs, seq![Unit::Code(EOF)]);
    assert(f == abs + seq![Unit::Code(EOF)]);
}

/// A state machine waiting for a frame takes the line of a run of frames
/// and hands over each payload once, in order, and waits again.
pub proof fn lemma_run_frames(m: InputView, ss: Seq<Seq<u8>>, prev: u8, before: nat, after: nat)
    requires
        !m.reading,
        m.data.len() == DATA_LEN,
        clean_payloads(ss),
        prev == 0 || prev == 0x0f,
        after >= 2,
    ensures
        !run_units(m, frames_line(ss, prev, before, after)).0.reading,
        run_units(m, frames_line(ss, prev, before, after)).0.data.len() == DATA_LEN,
        signals(run_units(m, frames_line(ss, prev, before, after)).1) == received_all(ss),
    decreases ss.len(),
{
    if ss.len() == 0 {
        assert(frames_line(ss, prev, before, after) =~= Seq::<Unit>::empty());
        assert(run_units(m, Seq::<Unit>::empty()).1 =~= Seq::<CommandView>::empty());
        assert(received_all(ss) =~= Seq::<CommandView>::empty());
    } else {
        let s = ss[0];
        let l = idle_last(prev, before);
        let i1 = idle_units(prev, before);
        let f = frame_units(s, l);
        let i2 = idle_units(EOF % 16, after);
        lemma_idle_clean(prev, before);
        lemma_idle_clean(EOF % 16, after);
        lemma_run_idle(m, i1);
        lemma_run_frame(m, s, l);
        let m1 = run_units(m, f).0;
        lemma_run_idle(m1, i2);
        lemma_run_units_append(m, i1, f);
        lemma_run_units_append(m, i1 + f, i2);
        lemma_signals_append(run_units(m, i1).1, run_units(m, f).1);
        lemma_signals_append(run_units(m, i1 + f).1, run_units(m1, i2).1);
        let block = frame_line(s, prev, before, after);
        assert(block == (i1 + f) + i2);
        assert(signals(run_units(m, block).1) =~= seq![CommandView::Received(s)]);
        let rest = ss.drop_first();
        assert(clean_payloads(rest)) by {
            assert forall|i: int| 0 <= i < rest.len() implies #[trigger] rest[i].len() == DATA_LEN
                && clean_payload(rest[i]) by {
                assert(rest[i] == ss[i + 1]);
            }
        }
        let p2 = idle_last(EOF % 16, after);
        lemma_run_frames(m1, rest, p2, before, after);
        let tail = frames_line(rest, p2, before, after);
        lemma_run_units_append(m, block, tail);
        lemma_signals_append(run_units(m, block).1, run_units(m1, tail).1);
        assert(received_all(ss) =~= seq![CommandView::Received(s)] + received_all(rest));
    }
}

/// A decoder waiting for frames reads from the line of a run of frames with
/// clean payloads exactly one received frame per payload, in order, and
/// nothing else; the idle nibbles around the frames and the Buffer codes
/// between equal nibbles change nothing.
#[verifier::rlimit(60)]
pub proof fn lemma_frames_round_trip(m: InputView, ss: Seq<Seq<u8>>, before: nat, after: nat)
    requires
        input_inv(m),
        !m.reading,
        m.pending.len() == 0,
        m.last == 0 || m.last == 0x0f,
        ss.len() > 0,
        clean_payloads(ss),
        after >= 2,
    ensures
        signals(feed(m, flatten(frames_line(ss, m.last, before, after))).1) == received_all(ss),
{
    let us = frames_line(ss, m.last, before, after);
    lemma_frames_clean(ss, m.last, before, after);
    lemma_clean_nibbles(us);
    assert(junction_ok(Unit::Data(m.last), us[0]));
    let w = flatten(us);
    let j = lemma_feed(m, us, w.len());
    assert(w.take(w.len() as int) =~= w);
    let e = us.len() - after;
    let i2 = us.skip(e);
    assert forall|i: int| 0 <= i < i2.len() implies #[trigger] i2[i] is Data by {
        assert(i2[i] == us[e + i]);
    }
    lemma_flatten_len_data(i2);
    lemma_start_next(us, e - 1);
    assert(j >= e) by {
        if j < e {
            lemma_start_monotone(us, j as int, e - 1);
        }
    }
    lemma_run_frames(m, ss, m.last, before, after);
    lemma_after_last_eof(m, us, e, j as int);
}

/// Once a run has taken an EOF and nothing but data follows, where the
/// decoder stands within that data does not change what it has signalled.
#[verifier::rlimit(40)]
pub proof fn lemma_after_last_eof(m: InputView, us: Seq<Unit>, e: int, j: int)
    requires
        1 <= e <= j <= us.len(),
        us[e - 1] == Unit::Code(EOF),
        forall|k: int| e <= k < us.len() ==> #[trigger] us[k] is Data,
    ensures
        signals(run_units(m, us.take(j)).1) == signals(run_units(m, us).1),
{
    let pre = us.take(e);
    let i2 = us.skip(e);
    assert forall|i: int| 0 <= i < i2.len() implies #[trigger] i2[i] is Data by {
        assert(i2[i] == us[e + i]);
    }
    assert(pre =~= us.take(e - 1).push(Unit::Code(EOF)));
    lemma_run_units_push(m, us.take(e - 1), Unit::Code(EOF));
    assert(token(Unit::Code(EOF)) == DecodedValue::EscapeCode(EscapeCode::EndOfFrame));
    let mp = run_units(m, pre).0;
    assert(!mp.reading);
    assert(us =~= pre + i2);
    lemma_run_units_append(m, pre, i2);
    lemma_run_idle(mp, i2);
    lemma_signals_append(run_units(m, pre).1, run_units(mp, i2).1);
    let tail = us.subrange(e, j);
    assert(us.take(j) =~= pre + tail);
    assert forall|i: int| 0 <= i < tail.len() implies #[trigger] tail[i] is Data by {
        assert(tail[i] == i2[i]);
    }
    lemma_run_units_append(m, pre, tail);
    lemma_run_idle(mp, tail);
    lemma_signals_append(run_units(m, pre).1, run_units(mp, tail).1);
    assert(signals(run_units(m, pre).1) + Seq::<CommandView>::empty() =~= signals(
        run_units(m, pre).1,
    ));
}

/// The state after a run of calls.
pub open spec fn calls_state(m: OutputView, cs: Seq<OutputCall>) -> OutputView
    decreases cs.len(),
{
    if cs.len() == 0 {
        m
    } else {
        calls_state(call_step(m, cs[0]).0, cs.drop_first())
    }
}

/// `k` calls of `next`.
pub open spec fn nexts(k: nat) -> Seq<OutputCall> {
    Seq::new(k, |i: int| OutputCall::Next)
}

/// How many nibbles the frame with payload `s` takes on the line after `l`.
pub open spec fn frame_span(s: Seq<u8>, l: u8) -> nat {
    flatten(frame_units(s, l)).len()
}

/// The calls a sender makes for a run of frames: `before` calls of `next`,
/// the frame handed over, and `next` until the frame and `after` idle
/// nibbles have gone out.
pub open spec fn frames_calls(ss: Seq<Seq<u8>>, prev: u8, before: nat, after: nat) -> Seq<
    OutputCall,
>
    decreases ss.len(),
{
    if ss.len() == 0 {
        Seq::empty()
    } else {
        nexts(before) + seq![OutputCall::SendFrame(frame_of(ss[0]))] + nexts(
            frame_span(ss[0], idle_last(prev, before)) + after,
        ) + frames_calls(ss.drop_first(), idle_last(EOF % 16, after), before, after)
    }
}

pub proof fn lemma_calls_append(m: OutputView, a: Seq<OutputCall>, b: Seq<OutputCall>)
    ensures
        calls_emitted(m, a + b) == calls_emitted(m, a) + calls_emitted(calls_state(m, a), b),
        calls_state(m, a + b) == calls_state(calls_state(m, a), b),
    decreases a.len(),
{
    if a.len() == 0 {
        assert(a + b =~= b);
        assert(calls_emitted(m, a) + calls_emitted(m, b) =~= calls_emitted(m, b));
    } else {
        lemma_calls_append(call_step(m, a[0]).0, a.drop_first(), b);
        assert((a + b).drop_first() =~= a.drop_first() + b);
        assert((a + b)[0] == a[0]);
        assert(calls_emitted(m, a + b) =~= calls_emitted(m, a) + calls_emitted(
            calls_state(m, a),
            b,
        ));
    }
}

pub proof fn lemma_nexts(m: OutputView, k: nat)
    ensures
        calls_emitted(m, nexts(k)) == emitted(m, k),
        calls_state(m, nexts(k)) == after_steps(m, k),
    decreases k,
{
    if k > 0 {
        assert(nexts(k)[0] == OutputCall::Next);
        assert(nexts(k).drop_first() =~= nexts((k - 1) as nat));
        lemma_nexts(next_step(m).0, (k - 1) as nat);
        assert(calls_emitted(m, nexts(k)) =~= emitted(m, k));
    } else {
        assert(calls_emitted(m, nexts(0)) =~= emitted(m, 0));
    }
}

/// An output stream with nothing to send, given one frame between idle
/// stretches, sends that frame's line and ends idle again.
#[verifier::rlimit(40)]
pub proof fn lemma_block_emit(o: OutputView, s: Seq<u8>, before: nat, after: nat)
    requires
        output_inv(o),
        !o.writing,
        o.pending.len() == 0,
        o.last == 0 || o.last == 0x0f,
        s.len() == DATA_LEN,
        clean_payload(s),
        after >= 2,
    ensures
        ({
            let cs = nexts(before) + seq![OutputCall::SendFrame(frame_of(s))] + nexts(
                frame_span(s, idle_last(o.last, before)) + after,
            );
            &&& calls_emitted(o, cs) == flatten(frame_line(s, o.last, before, after))
            &&& output_inv(calls_state(o, cs))
            &&& !calls_state(o, cs).writing
            &&& calls_state(o, cs).pending.len() == 0
            &&& calls_state(o, cs).last == idle_last(EOF % 16, after)
        }),
{
    let c1 = nexts(before);
    let c2 = seq![OutputCall::SendFrame(frame_of(s))];
    let l = idle_last(o.last, before);
    let nf = frame_span(s, l);
    let c3 = nexts(nf + after);
    lemma_nexts(o, before);
    lemma_emit_idle(o, before);
    let o1 = after_steps(o, before);
    assert(l == o1.last);
    let o2 = OutputView { writing: true, frame: frame_of(s), index: 0, pending: Seq::empty(), ..o1 };
    assert(c2[0] == OutputCall::SendFrame(frame_of(s)));
    assert(c2.drop_first() =~= Seq::<OutputCall>::empty());
    assert(call_step(o1, c2[0]).0 == o2);
    assert(call_step(o1, c2[0]).1 =~= Seq::<u8>::empty());
    assert(calls_state(o2, Seq::<OutputCall>::empty()) == o2);
    assert(calls_emitted(o2, Seq::<OutputCall>::empty()) =~= Seq::<u8>::empty());
    assert(calls_state(o1, c2) == o2);
    assert(calls_emitted(o1, c2) =~= Seq::<u8>::empty());
    assert(output_inv(o2));
    lemma_frame_nibbles_line(s, l);
    assert(frame_nibbles(o2.frame).skip(0) =~= frame_nibbles(o2.frame));
    lemma_emit_nibbles(o2);
    let o3 = after_steps(o2, nf);
    lemma_emit_idle(o3, after);
    lemma_emitted_append(o2, nf, after);
    lemma_nexts(o2, nf + after);
    lemma_calls_append(o, c1, c2);
    lemma_calls_append(o, c1 + c2, c3);
    let i1 = idle_units(o.last, before);
    let f = frame_units(s, l);
    let i2 = idle_units(EOF % 16, after);
    lemma_flatten_append(i1 + f, i2);
    lemma_flatten_append(i1, f);
    assert(calls_emitted(o, c1 + c2) =~= emitted(o, before));
    assert(calls_emitted(o, c1 + c2 + c3) =~= flatten(frame_line(s, o.last, before, after)));
}

/// The sender's calls for a run of frames send that run's line.
pub proof fn lemma_frames_emit(o: OutputView, ss: Seq<Seq<u8>>, before: nat, after: nat)
    requires
        output_inv(o),
        !o.writing,
        o.pending.len() == 0,
        o.last == 0 || o.last == 0x0f,
        clean_payloads(ss),
        after >= 2,
    ensures
        calls_emitted(o, frames_calls(ss, o.last, before, after)) == flatten(
            frames_line(ss, o.last, before, after),
        ),
    decreases ss.len(),
{
    if ss.len() == 0 {
        assert(calls_emitted(o, frames_calls(ss, o.last, before, after)) =~= Seq::<u8>::empty());
        assert(frames_line(ss, o.last, before, after) =~= Seq::<Unit>::empty());
        assert(flatten(Seq::<Unit>::empty()) =~= Seq::<u8>::empty());
    } else {
        let s = ss[0];
        assert(s.len() == DATA_LEN && clean_payload(s));
        let cs = nexts(before) + seq![OutputCall::SendFrame(frame_of(s))] + nexts(
            frame_span(s, idle_last(o.last, before)) + after,
        );
        lemma_block_emit(o, s, before, after);
        let o4 = calls_state(o, cs);
        let rest = ss.drop_first();
        assert(clean_payloads(rest)) by {
            assert forall|i: int| 0 <= i < rest.len() implies #[trigger] rest[i].len() == DATA_LEN
                && clean_payload(rest[i]) by {
                assert(rest[i] == ss[i + 1]);
            }
        }
        lemma_idle_clean(EOF % 16, after);
        lemma_frames_emit(o4, rest, before, after);
        lemma_calls_append(o, cs, frames_calls(rest, o4.last, before, after));
        lemma_flatten_append(
            frame_line(s, o.last, before, after),
            frames_line(rest, o4.last, before, after),
        );
    }
}

/// Round trip of a byte stream over a perfect line: a run of frames with
/// clean payloads, each sent by an output stream between idle stretches
/// (any number of nibbles before, two or more after), is read by an input
/// stream as exactly one received frame per payload, in order, and nothing
/// else. Such payloads hold no control byte, so the escape encoder passes
/// them unchanged, and the frames are those the packer makes of them.
pub proof fn lemma_stream_round_trip(
    o: OutputView,
    m: InputView,
    ss: Seq<Seq<u8>>,
    before: nat,
    after: nat,
)
    requires
        output_inv(o),
        !o.writing,
        o.pending.len() == 0,
        input_inv(m),
        !m.reading,
        m.pending.len() == 0,
        o.last == m.last,
        m.last == 0 || m.last == 0x0f,
        ss.len() > 0,
        clean_payloads(ss),
        after >= 2,
    ensures
        forall|i: int| 0 <= i < ss.len() ==> escape_encode(#[trigger] ss[i]) == ss[i],
        signals(feed(m, calls_emitted(o, frames_calls(ss, o.last, before, after))).1)
            == received_all(ss),
{
    assert forall|i: int| 0 <= i < ss.len() implies escape_encode(#[trigger] ss[i]) == ss[i] by {
        assert(ss[i].len() == DATA_LEN && clean_payload(ss[i]));
        lemma_clean_payload_unescaped(ss[i]);
    }
    lemma_frames_emit(o, ss, before, after);
    lemma_frames_round_trip(m, ss, before, after);
}

} // verus!
