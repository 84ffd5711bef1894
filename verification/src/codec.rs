//! The persisted policy-record format: one self-describing text line per
//! scored policy, holding the priority table(s), the score in thousandths of
//! the unit interval, and the trial count. The writer is specified byte for
//! byte; the reader accepts a line only if the record it extracts writes back
//! to exactly that line, so a parsed record always reproduces its input.

use vstd::prelude::*;
use crate::policy::{BuyPolicyConfig, BuyPolicyItem, BuyablePiece};

verus! {

/// A persisted record: the table played while Kings remain, the optional
/// table for afterwards, the combined score in thousandths, and the number
/// of trials behind it.
#[derive(Debug, PartialEq, Eq)]
pub struct PolicyEvalResult {
    pub policy: BuyPolicyConfig,
    pub all_kings_policy: Option<BuyPolicyConfig>,
    pub score: u64,
    pub times: u64,
}

/// Decimal digits of `n`, most significant first, no leading zeros.
pub open spec fn dec_rep(n: nat) -> Seq<u8>
    decreases n,
{
    if n < 10 {
        seq![(48 + n) as u8]
    } else {
        dec_rep(n / 10).push((48 + n % 10) as u8)
    }
}

/// Exactly three decimal digits, zero-padded, for the fractional part.
pub open spec fn frac3(m: nat) -> Seq<u8> {
    seq![(48 + m / 100) as u8, (48 + (m / 10) % 10) as u8, (48 + m % 10) as u8]
}

pub open spec fn lit_policy_head() -> Seq<u8> {
    seq![('{' as u8), ('"' as u8), ('p' as u8), ('o' as u8), ('l' as u8), ('i' as u8), ('c' as u8), ('y' as u8), ('"' as u8), (':' as u8)]
}

pub open spec fn lit_table_head() -> Seq<u8> {
    seq![
        ('{' as u8),
        ('"' as u8),
        ('p' as u8),
        ('r' as u8),
        ('i' as u8),
        ('o' as u8),
        ('r' as u8),
        ('i' as u8),
        ('t' as u8),
        ('i' as u8),
        ('e' as u8),
        ('s' as u8),
        ('"' as u8),
        (':' as u8),
        ('[' as u8),
    ]
}

pub open spec fn lit_item_head() -> Seq<u8> {
    seq![
        ('{' as u8),
        ('"' as u8),
        ('p' as u8),
        ('i' as u8),
        ('e' as u8),
        ('c' as u8),
        ('e' as u8),
        ('_' as u8),
        ('t' as u8),
        ('y' as u8),
        ('p' as u8),
        ('e' as u8),
        ('"' as u8),
        (':' as u8),
        ('"' as u8),
    ]
}

pub open spec fn lit_piece_num() -> Seq<u8> {
    seq![('"' as u8), (',' as u8), ('"' as u8), ('p' as u8), ('i' as u8), ('e' as u8), ('c' as u8), ('e' as u8), ('_' as u8), ('n' as u8), ('u' as u8), ('m' as u8), ('"' as u8), (':' as u8)]
}

pub open spec fn lit_budget() -> Seq<u8> {
    seq![(',' as u8), ('"' as u8), ('b' as u8), ('u' as u8), ('d' as u8), ('g' as u8), ('e' as u8), ('t' as u8), ('"' as u8), (':' as u8)]
}

pub open spec fn lit_kings_head() -> Seq<u8> {
    seq![
        (',' as u8),
        ('"' as u8),
        ('a' as u8),
        ('l' as u8),
        ('l' as u8),
        ('_' as u8),
        ('k' as u8),
        ('i' as u8),
        ('n' as u8),
        ('g' as u8),
        ('s' as u8),
        ('_' as u8),
        ('p' as u8),
        ('o' as u8),
        ('l' as u8),
        ('i' as u8),
        ('c' as u8),
        ('y' as u8),
        ('"' as u8),
        (':' as u8),
    ]
}

pub open spec fn lit_null() -> Seq<u8> {
    seq![('n' as u8), ('u' as u8), ('l' as u8), ('l' as u8)]
}

pub open spec fn lit_score_head() -> Seq<u8> {
    seq![(',' as u8), ('"' as u8), ('s' as u8), ('c' as u8), ('o' as u8), ('r' as u8), ('e' as u8), ('"' as u8), (':' as u8)]
}

pub open spec fn lit_times_head() -> Seq<u8> {
    seq![(',' as u8), ('"' as u8), ('t' as u8), ('i' as u8), ('m' as u8), ('e' as u8), ('s' as u8), ('"' as u8), (':' as u8)]
}

pub open spec fn piece_name(p: BuyablePiece) -> Seq<u8> {
    match p {
        BuyablePiece::JACK => seq![('J' as u8), ('A' as u8), ('C' as u8), ('K' as u8)],
        BuyablePiece::QUEEN => seq![('Q' as u8), ('U' as u8), ('E' as u8), ('E' as u8), ('N' as u8)],
        BuyablePiece::KING => seq![('K' as u8), ('I' as u8), ('N' as u8), ('G' as u8)],
    }
}

/// One rendered priority entry.
pub open spec fn ser_item(it: BuyPolicyItem) -> Seq<u8> {
    lit_item_head() + piece_name(it.piece_type) + lit_piece_num() + dec_rep(it.piece_num as nat)
        + lit_budget() + dec_rep(it.budget as nat) + seq![('}' as u8)]
}

/// A comma-separated list of rendered entries.
pub open spec fn ser_items(s: Seq<BuyPolicyItem>) -> Seq<u8>
    decreases s.len(),
{
    if s.len() == 0 {
        Seq::<u8>::empty()
    } else if s.len() == 1 {
        ser_item(s[0])
    } else {
        ser_item(s.first()) + (seq![(',' as u8)] + ser_items(s.drop_first()))
    }
}

/// The list grows at the back by a comma and one more entry.
pub proof fn lemma_ser_items_snoc(s: Seq<BuyPolicyItem>)
    requires
        s.len() >= 2,
    ensures
        ser_items(s) == ser_items(s.drop_last()) + seq![(',' as u8)] + ser_item(s.last()),
    decreases s.len(),
{
    if s.len() == 2 {
        assert(s.drop_first().len() == 1);
        assert(s.drop_first()[0] == s.last());
        assert(s.drop_last().len() == 1);
        assert(s.drop_last()[0] == s.first());
        assert(ser_items(s.drop_first()) == ser_item(s.last()));
        assert(ser_items(s.drop_last()) == ser_item(s.first()));
        assert(ser_items(s) == ser_item(s.first()) + (seq![(',' as u8)] + ser_item(s.last())));
        assert(ser_items(s) =~= ser_items(s.drop_last()) + seq![(',' as u8)] + ser_item(s.last()));
    } else {
        lemma_ser_items_snoc(s.drop_first());
        assert(s.drop_first().drop_last() =~= s.drop_last().drop_first());
        assert(s.drop_first().last() == s.last());
        assert(s.drop_last().first() == s.first());
        assert(s.drop_last().len() >= 2);
        assert(ser_items(s.drop_last()) == ser_item(s.first()) + (seq![(',' as u8)] + ser_items(
            s.drop_last().drop_first(),
        )));
        assert(ser_items(s) =~= ser_items(s.drop_last()) + seq![(',' as u8)] + ser_item(s.last()));
    }
}

/// A rendered priority table.
pub open spec fn ser_table(s: Seq<BuyPolicyItem>) -> Seq<u8> {
    lit_table_head() + ser_items(s) + seq![(']' as u8), ('}' as u8)]
}

/// The whole rendered record line.
pub open spec fn ser_record_spec(
    items: Seq<BuyPolicyItem>,
    kings: Option<Seq<BuyPolicyItem>>,
    score: u64,
    times: u64,
) -> Seq<u8> {
    lit_policy_head() + ser_table(items) + lit_kings_head() + (match kings {
        Option::None => lit_null(),
        Option::Some(k) => ser_table(k),
    }) + lit_score_head() + dec_rep((score / 1000) as nat) + seq![('.' as u8)] + frac3((score % 1000) as nat)
        + lit_times_head() + dec_rep(times as nat) + seq![('}' as u8)]
}

/// Entries whose numbers render as plain decimals.
pub open spec fn items_nonneg(s: Seq<BuyPolicyItem>) -> bool {
    forall|i: int| 0 <= i < s.len() ==> (#[trigger] s[i]).piece_num >= 0 && s[i].budget >= 0
}

/// The table views of a record, for speaking about both tables at once.
pub open spec fn kings_items(o: Option<BuyPolicyConfig>) -> Option<Seq<BuyPolicyItem>> {
    match o {
        Option::None => Option::<Seq<BuyPolicyItem>>::None,
        Option::Some(c) => Some(c.priorities@),
    }
}

/// A record the writer can render.
pub open spec fn record_ser_wf(rec: PolicyEvalResult) -> bool {
    &&& items_nonneg(rec.policy.priorities@)
    &&& match rec.all_kings_policy {
        Option::None => true,
        Option::Some(c) => items_nonneg(c.priorities@),
    }
}

/// Appends the decimal digits of `n`.
fn push_dec(out: &mut Vec<u8>, n: u64)
    ensures
        final(out)@ == old(out)@ + dec_rep(n as nat),
    decreases n,
{
    if n < 10 {
        out.push((48 + n) as u8);
        proof {
            assert(out@ =~= old(out)@ + dec_rep(n as nat));
        }
    } else {
        push_dec(out, n / 10);
        out.push((48 + n % 10) as u8);
        proof {
            assert(out@ =~= old(out)@ + dec_rep(n as nat));
        }
    }
}

/// Appends one rendered entry.
#[verifier::rlimit(100)]
fn push_item(out: &mut Vec<u8>, it: &BuyPolicyItem)
    requires
        it.piece_num >= 0,
        it.budget >= 0,
    ensures
        final(out)@ == old(out)@ + ser_item(*it),
{
    out.push(('{' as u8));
    out.push(('"' as u8));
    out.push(('p' as u8));
    out.push(('i' as u8));
    out.push(('e' as u8));
    out.push(('c' as u8));
    out.push(('e' as u8));
    out.push(('_' as u8));
    out.push(('t' as u8));
    out.push(('y' as u8));
    out.push(('p' as u8));
    out.push(('e' as u8));
    out.push(('"' as u8));
    out.push((':' as u8));
    out.push(('"' as u8));
    match it.piece_type {
        BuyablePiece::JACK => {
            out.push(('J' as u8));
            out.push(('A' as u8));
            out.push(('C' as u8));
            out.push(('K' as u8));
        },
        BuyablePiece::QUEEN => {
            out.push(('Q' as u8));
            out.push(('U' as u8));
            out.push(('E' as u8));
            out.push(('E' as u8));
            out.push(('N' as u8));
        },
        BuyablePiece::KING => {
            out.push(('K' as u8));
            out.push(('I' as u8));
            out.push(('N' as u8));
            out.push(('G' as u8));
        },
    }
    proof {
        assert(out@ =~= old(out)@ + lit_item_head() + piece_name(it.piece_type));
    }
    let ghost mid = out@;
    out.push(('"' as u8));
    out.push((',' as u8));
    out.push(('"' as u8));
    out.push(('p' as u8));
    out.push(('i' as u8));
    out.push(('e' as u8));
    out.push(('c' as u8));
    out.push(('e' as u8));
    out.push(('_' as u8));
    out.push(('n' as u8));
    out.push(('u' as u8));
    out.push(('m' as u8));
    out.push(('"' as u8));
    out.push((':' as u8));
    proof {
        assert(out@ =~= mid + lit_piece_num());
    }
    push_dec(out, it.piece_num as u64);
    let ghost mid2 = out@;
    out.push((',' as u8));
    out.push(('"' as u8));
    out.push(('b' as u8));
    out.push(('u' as u8));
    out.push(('d' as u8));
    out.push(('g' as u8));
    out.push(('e' as u8));
    out.push(('t' as u8));
    out.push(('"' as u8));
    out.push((':' as u8));
    proof {
        assert(out@ =~= mid2 + lit_budget());
    }
    push_dec(out, it.budget as u64);
    out.push(('}' as u8));
    proof {
        assert(out@ =~= old(out)@ + ser_item(*it));
    }
}

/// Appends a rendered priority table.
fn push_table(out: &mut Vec<u8>, cfg: &BuyPolicyConfig)
    requires
        items_nonneg(cfg.priorities@),
    ensures
        final(out)@ == old(out)@ + ser_table(cfg.priorities@),
{
    out.push(('{' as u8));
    out.push(('"' as u8));
    out.push(('p' as u8));
    out.push(('r' as u8));
    out.push(('i' as u8));
    out.push(('o' as u8));
    out.push(('r' as u8));
    out.push(('i' as u8));
    out.push(('t' as u8));
    out.push(('i' as u8));
    out.push(('e' as u8));
    out.push(('s' as u8));
    out.push(('"' as u8));
    out.push((':' as u8));
    out.push(('[' as u8));
    proof {
        assert(out@ =~= old(out)@ + lit_table_head());
        assert(cfg.priorities@.take(0) =~= Seq::<BuyPolicyItem>::empty());
    }
    let ghost base = out@;
    let items = &cfg.priorities;
    let mut i: usize = 0;
    while i < items.len()
        invariant
            items@ == cfg.priorities@,
            items_nonneg(items@),
            0 <= i <= items@.len(),
            out@ == base + ser_items(items@.take(i as int)),
        decreases items@.len() - i,
    {
        if i > 0 {
            out.push((',' as u8));
        }
        push_item(out, &items[i]);
        proof {
            assert(items@.take(i + 1).drop_last() =~= items@.take(i as int));
            assert(items@.take(i + 1).last() == items@[i as int]);
            if i == 0 {
                assert(out@ =~= base + ser_items(items@.take(1)));
            } else {
                lemma_ser_items_snoc(items@.take(i + 1));
                assert(out@ =~= base + ser_items(items@.take(i + 1)));
            }
        }
        i += 1;
    }
    out.push((']' as u8));
    out.push(('}' as u8));
    proof {
        assert(items@.take(items@.len() as int) =~= items@);
        assert(out@ =~= old(out)@ + ser_table(cfg.priorities@));
    }
}

/// Renders a record as one line of text, exactly as `ser_record_spec` says.
#[verifier::rlimit(100)]
pub fn serialize_record(rec: &PolicyEvalResult) -> (out: Vec<u8>)
    requires
        record_ser_wf(*rec),
    ensures
        out@ == ser_record_spec(
            rec.policy.priorities@,
            kings_items(rec.all_kings_policy),
            rec.score,
            rec.times,
        ),
{
    let mut out: Vec<u8> = Vec::new();
    out.push(('{' as u8));
    out.push(('"' as u8));
    out.push(('p' as u8));
    out.push(('o' as u8));
    out.push(('l' as u8));
    out.push(('i' as u8));
    out.push(('c' as u8));
    out.push(('y' as u8));
    out.push(('"' as u8));
    out.push((':' as u8));
    proof {
        assert(out@ =~= lit_policy_head());
    }
    push_table(&mut out, &rec.policy);
    let ghost mid = out@;
    out.push((',' as u8));
    out.push(('"' as u8));
    out.push(('a' as u8));
    out.push(('l' as u8));
    out.push(('l' as u8));
    out.push(('_' as u8));
    out.push(('k' as u8));
    out.push(('i' as u8));
    out.push(('n' as u8));
    out.push(('g' as u8));
    out.push(('s' as u8));
    out.push(('_' as u8));
    out.push(('p' as u8));
    out.push(('o' as u8));
    out.push(('l' as u8));
    out.push(('i' as u8));
    out.push(('c' as u8));
    out.push(('y' as u8));
    out.push(('"' as u8));
    out.push((':' as u8));
    proof {
        assert(out@ =~= mid + lit_kings_head());
    }
    match &rec.all_kings_policy {
        Option::None => {
            out.push(('n' as u8));
            out.push(('u' as u8));
            out.push(('l' as u8));
            out.push(('l' as u8));
            proof {
                assert(out@ =~= mid + lit_kings_head() + lit_null());
            }
        },
        Option::Some(cfg) => {
            push_table(&mut out, cfg);
        },
    }
    let ghost mid2 = out@;
    out.push((',' as u8));
    out.push(('"' as u8));
    out.push(('s' as u8));
    out.push(('c' as u8));
    out.push(('o' as u8));
    out.push(('r' as u8));
    out.push(('e' as u8));
    out.push(('"' as u8));
    out.push((':' as u8));
    proof {
        assert(out@ =~= mid2 + lit_score_head());
    }
    push_dec(&mut out, rec.score / 1000);
    out.push(('.' as u8));
    let m = rec.score % 1000;
    out.push((48 + m / 100) as u8);
    out.push((48 + (m / 10) % 10) as u8);
    out.push((48 + m % 10) as u8);
    let ghost mid3 = out@;
    proof {
        assert(mid3 =~= mid2 + lit_score_head() + dec_rep((rec.score / 1000) as nat) + seq![('.' as u8)]
            + frac3((rec.score % 1000) as nat));
    }
    out.push((',' as u8));
    out.push(('"' as u8));
    out.push(('t' as u8));
    out.push(('i' as u8));
    out.push(('m' as u8));
    out.push(('e' as u8));
    out.push(('s' as u8));
    out.push(('"' as u8));
    out.push((':' as u8));
    proof {
        assert(out@ =~= mid3 + lit_times_head());
    }
    push_dec(&mut out, rec.times);
    out.push(('}' as u8));
    proof {
        assert(out@ =~= ser_record_spec(
            rec.policy.priorities@,
            kings_items(rec.all_kings_policy),
            rec.score,
            rec.times,
        ));
    }
    out
}

/// Compares two byte strings.
fn bytes_eq(a: &Vec<u8>, b: &Vec<u8>) -> (r: bool)
    ensures
        r == (a@ == b@),
{
    if a.len() != b.len() {
        return false;
    }
    let mut i: usize = 0;
    while i < a.len()
        invariant
            a@.len() == b@.len(),
            0 <= i <= a@.len(),
            forall|j: int| 0 <= j < i ==> a@[j] == b@[j],
        decreases a@.len() - i,
    {
        if a[i] != b[i] {
            return false;
        }
        i += 1;
    }
    proof {
        assert(a@ =~= b@);
    }
    true
}

/// `pos` moved past `n` bytes, if that many remain.
fn skip_n(line: &Vec<u8>, pos: usize, n: usize) -> (r: Option<usize>)
    requires
        pos <= line@.len(),
    ensures
        r matches Some(q) ==> pos <= q <= line@.len() && q == pos + n,
        pos + n <= line@.len() ==> r is Some,
{
    if n <= line.len() && pos <= line.len() - n {
        Some(pos + n)
    } else {
        None
    }
}

/// The number written by a digit string, most significant digit first.
pub open spec fn dec_val(s: Seq<u8>) -> int
    decreases s.len(),
{
    if s.len() == 0 {
        0
    } else {
        dec_val(s.drop_last()) * 10 + (s.last() - 48)
    }
}

proof fn lemma_dec_val_nonneg(s: Seq<u8>)
    requires
        forall|i: int| 0 <= i < s.len() ==> is_digit(#[trigger] s[i]),
    ensures
        dec_val(s) >= 0,
    decreases s.len(),
{
    if s.len() > 0 {
        assert forall|i: int| 0 <= i < s.drop_last().len() implies is_digit(
            #[trigger] s.drop_last()[i],
        ) by {
            assert(s.drop_last()[i] == s[i]);
        }
        assert(is_digit(s[s.len() - 1]));
        lemma_dec_val_nonneg(s.drop_last());
    }
}

/// Reading the decimal digits of `n` back gives `n`.
proof fn lemma_dec_val_rep(n: nat)
    ensures
        dec_val(dec_rep(n)) == n,
    decreases n,
{
    if n < 10 {
        assert(dec_rep(n) == seq![(48 + n) as u8]);
        assert(dec_rep(n).drop_last() =~= Seq::<u8>::empty());
        assert(dec_rep(n).last() == (48 + n) as u8);
        assert(((48 + n) as u8) == 48 + n);
        assert(dec_val(dec_rep(n)) == dec_val(Seq::<u8>::empty()) * 10 + ((48 + n) as u8 - 48));
    } else {
        lemma_dec_val_rep(n / 10);
        assert(dec_rep(n) == dec_rep(n / 10).push((48 + n % 10) as u8));
        assert(dec_rep(n).drop_last() =~= dec_rep(n / 10));
        assert(dec_rep(n).last() == (48 + n % 10) as u8);
        assert(((48 + n % 10) as u8) == 48 + n % 10);
        assert(dec_val(dec_rep(n)) == dec_val(dec_rep(n / 10)) * 10 + ((48 + n % 10) as u8 - 48));
    }
}

/// Every digit prefix of `n`'s representation reads as a value at most `n`.
proof fn lemma_dec_val_take(n: nat, j: int)
    requires
        0 <= j <= dec_rep(n).len(),
    ensures
        0 <= dec_val(dec_rep(n).take(j)) <= n,
        j < dec_rep(n).len() ==> dec_val(dec_rep(n).take(j + 1)) == dec_val(dec_rep(n).take(j))
            * 10 + (dec_rep(n)[j] - 48),
    decreases dec_rep(n).len() - j,
{
    lemma_dec_digits(n);
    let d = dec_rep(n);
    assert forall|i: int| 0 <= i < d.take(j).len() implies is_digit(#[trigger] d.take(j)[i]) by {
        assert(d.take(j)[i] == d[i]);
    }
    lemma_dec_val_nonneg(d.take(j));
    if j == d.len() {
        assert(d.take(j) =~= d);
        lemma_dec_val_rep(n);
    } else {
        assert(d.take(j + 1).drop_last() =~= d.take(j));
        assert(d.take(j + 1).last() == d[j]);
        lemma_dec_val_take(n, j + 1);
        assert(is_digit(d[j]));
    }
}

/// The decimal digits of `n` stand at `pos`, ended by the string's end or a
/// non-digit.
pub open spec fn dec_at(s: Seq<u8>, pos: int, n: u64) -> bool {
    let d = dec_rep(n as nat);
    &&& 0 <= pos
    &&& pos + d.len() <= s.len()
    &&& s.subrange(pos, pos + d.len() as int) == d
    &&& (pos + d.len() == s.len() || !is_digit(s[pos + d.len()]))
}

/// One run of decimal digits starting at `pos`, as a number; nothing if no
/// digit stands there or the value overflows a machine word. Whenever the
/// digits of some number stand at `pos`, that number comes back.
fn parse_digits(line: &Vec<u8>, pos: usize) -> (r: Option<(u64, usize)>)
    requires
        pos <= line@.len(),
    ensures
        r matches Some(p) ==> pos < p.1 <= line@.len(),
        forall|n: u64| #[trigger] dec_at(line@, pos as int, n) ==> r == Some(
            (n, (pos + dec_rep(n as nat).len()) as usize),
        ),
{
    let ghost s = line@;
    let mut i = pos;
    let mut acc: u64 = 0;
    let mut any = false;
    let mut stop = false;
    while i < line.len() && !stop
        invariant
            s == line@,
            pos <= i <= s.len(),
            any <==> pos < i,
            stop ==> i < s.len() && !is_digit(s[i as int]),
            forall|n: u64| #[trigger] dec_at(s, pos as int, n) ==> i - pos <= dec_rep(
                n as nat,
            ).len() && acc == dec_val(dec_rep(n as nat).take(i - pos)),
        decreases s.len() - i + (if stop { 0int } else { 1int }),
    {
        let b = line[i];
        if b < 48 || b > 57 {
            stop = true;
        } else {
            proof {
                assert forall|n: u64| #[trigger] dec_at(s, pos as int, n) implies i - pos
                    < dec_rep(n as nat).len() by {
                    lemma_dec_digits(n as nat);
                    if i - pos == dec_rep(n as nat).len() {
                        assert(!is_digit(s[i as int]));
                    }
                }
            }
            let wide: u128 = (acc as u128) * 10 + ((b - 48) as u128);
            proof {
                assert forall|n: u64| #[trigger] dec_at(s, pos as int, n) implies wide == dec_val(
                    dec_rep(n as nat).take(i - pos + 1),
                ) && wide <= n by {
                    lemma_dec_digits(n as nat);
                    lemma_dec_val_take(n as nat, i - pos);
                    lemma_dec_val_take(n as nat, i - pos + 1);
                    let d = dec_rep(n as nat);
                    assert(s.subrange(pos as int, pos + d.len() as int)[i - pos] == s[i as int]);
                    assert(d[i - pos] == b);
                }
            }
            if wide > (u64::MAX as u128) {
                proof {
                    assert forall|n: u64| #[trigger] dec_at(s, pos as int, n) implies false by {
                        assert(wide <= n as u128);
                    }
                }
                return None;
            }
            acc = wide as u64;
            any = true;
            i += 1;
        }
    }
    if any {
        proof {
            assert forall|n: u64| #[trigger] dec_at(s, pos as int, n) implies i - pos == dec_rep(
                n as nat,
            ).len() && acc == n by {
                let d = dec_rep(n as nat);
                lemma_dec_digits(n as nat);
                if i - pos < d.len() {
                    assert(s.subrange(pos as int, pos + d.len() as int)[i - pos] == s[i as int]);
                    assert(is_digit(s[i as int]));
                    assert(i < s.len());
                    assert(false);
                }
                assert(d.take(i - pos) =~= d);
                lemma_dec_val_rep(n as nat);
            }
        }
        Some((acc, i))
    } else {
        proof {
            assert forall|n: u64| #[trigger] dec_at(s, pos as int, n) implies false by {
                let d = dec_rep(n as nat);
                lemma_dec_digits(n as nat);
                assert(i == pos);
                if pos < s.len() {
                    assert(s.subrange(pos as int, pos + d.len() as int)[0] == s[pos as int]);
                    assert(is_digit(s[pos as int]));
                }
            }
        }
        None
    }
}

/// The name of a piece stands at `pos`.
pub open spec fn piece_at(s: Seq<u8>, pos: int, p: BuyablePiece) -> bool {
    &&& 0 <= pos
    &&& pos + piece_name(p).len() <= s.len()
    &&& s.subrange(pos, pos + piece_name(p).len() as int) == piece_name(p)
}

/// A piece-kind token, told apart by its first byte; whenever a rendered
/// piece name stands at `pos`, that piece comes back.
fn parse_piece(line: &Vec<u8>, pos: usize) -> (r: Option<(BuyablePiece, usize)>)
    requires
        pos <= line@.len(),
    ensures
        r matches Some(p) ==> pos < p.1 <= line@.len(),
        forall|p: BuyablePiece| #[trigger] piece_at(line@, pos as int, p) ==> r == Some(
            (p, (pos + piece_name(p).len()) as usize),
        ),
{
    proof {
        assert forall|p: BuyablePiece| #[trigger] piece_at(line@, pos as int, p) implies pos
            < line@.len() && line@[pos as int] == piece_name(p)[0] by {
            let q = pos as int;
            assert(line@.subrange(q, q + piece_name(p).len() as int)[0] == line@[q]);
        }
    }
    if pos >= line.len() {
        return None;
    }
    let b = line[pos];
    if b == ('J' as u8) {
        match skip_n(line, pos, 4) {
            Some(q) => Some((BuyablePiece::JACK, q)),
            None => None,
        }
    } else if b == ('Q' as u8) {
        match skip_n(line, pos, 5) {
            Some(q) => Some((BuyablePiece::QUEEN, q)),
            None => None,
        }
    } else if b == ('K' as u8) {
        match skip_n(line, pos, 4) {
            Some(q) => Some((BuyablePiece::KING, q)),
            None => None,
        }
    } else {
        None
    }
}

/// A rendered entry stands at `pos`, its numbers within the reader's range.
pub open spec fn item_at(s: Seq<u8>, pos: int, it: BuyPolicyItem) -> bool {
    &&& 0 <= pos
    &&& 0 <= it.piece_num <= 1000000
    &&& 0 <= it.budget <= 1000000
    &&& pos + ser_item(it).len() <= s.len()
    &&& s.subrange(pos, pos + ser_item(it).len() as int) == ser_item(it)
}

/// Where each component of a rendered entry stands.
spec fn item_layout(s: Seq<u8>, pos: int, it: BuyPolicyItem) -> bool {
    let plen = piece_name(it.piece_type).len() as int;
    let d1 = dec_rep(it.piece_num as nat).len() as int;
    let d2 = dec_rep(it.budget as nat).len() as int;
    &&& 4 <= plen <= 5
    &&& 1 <= d1
    &&& 1 <= d2
    &&& piece_at(s, pos + 15, it.piece_type)
    &&& dec_at(s, pos + 15 + plen + 14, it.piece_num as u64)
    &&& dec_at(s, pos + 15 + plen + 14 + d1 + 10, it.budget as u64)
    &&& pos + 15 + plen + 14 + d1 + 10 + d2 < s.len()
    &&& s[pos + 15 + plen + 14 + d1 + 10 + d2] == ('}' as u8)
    &&& ser_item(it).len() == 15 + plen + 14 + d1 + 10 + d2 + 1
    &&& it.piece_num as u64 as int == it.piece_num
    &&& it.budget as u64 as int == it.budget
}

#[verifier::rlimit(100)]
#[verifier::spinoff_prover]
proof fn lemma_item_layout(s: Seq<u8>, pos: int, it: BuyPolicyItem)
    requires
        item_at(s, pos, it),
    ensures
        item_layout(s, pos, it),
{
    let h = lit_item_head();
    let pn = piece_name(it.piece_type);
    let lp = lit_piece_num();
    let d1 = dec_rep(it.piece_num as nat);
    let lb = lit_budget();
    let d2 = dec_rep(it.budget as nat);
    let cl = seq![('}' as u8)];
    lemma_dec_digits(it.piece_num as nat);
    lemma_dec_digits(it.budget as nat);
    let t6 = d2 + cl;
    let t5 = lb + t6;
    let t4 = d1 + t5;
    let t3 = lp + t4;
    let t2 = pn + t3;
    assert(ser_item(it) =~= h + t2);
    assert(ser_item(it).len() == 15 + pn.len() + 14 + d1.len() + 10 + d2.len() + 1);
    let o1 = pos + 15;
    let o2 = o1 + pn.len() as int;
    let o3 = o2 + 14;
    let o4 = o3 + d1.len() as int;
    let o5 = o4 + 10;
    let o6 = o5 + d2.len() as int;
    lemma_split_at(s, pos, h, t2);
    lemma_split_at(s, o1, pn, t3);
    lemma_split_at(s, o2, lp, t4);
    lemma_split_at(s, o3, d1, t5);
    lemma_split_at(s, o4, lb, t6);
    lemma_split_at(s, o5, d2, cl);
    assert(s.subrange(o4, o4 + t5.len() as int)[0] == s[o4]);
    assert(s[o4] == (',' as u8));
    assert(s.subrange(o6, o6 + cl.len() as int)[0] == s[o6]);
    assert(s[o6] == ('}' as u8));
    assert(dec_rep(it.piece_num as u64 as nat) == d1);
    assert(dec_rep(it.budget as u64 as nat) == d2);
    assert(dec_at(s, o3, it.piece_num as u64));
    assert(dec_at(s, o5, it.budget as u64));
}

/// One rendered entry; the table around it drives the separators. Whenever
/// a rendered entry stands at `pos`, exactly that entry comes back.
fn parse_item(line: &Vec<u8>, pos: usize) -> (r: Option<(BuyPolicyItem, usize)>)
    requires
        pos <= line@.len(),
    ensures
        r matches Some(p) ==> pos < p.1 <= line@.len() && 0 <= p.0.piece_num <= 1000000 && 0
            <= p.0.budget <= 1000000,
        forall|it: BuyPolicyItem| #[trigger] item_at(line@, pos as int, it) ==> r == Some(
            (it, (pos + ser_item(it).len()) as usize),
        ),
{
    let line_len = line.len();
    proof {
        assert(line@.len() == line_len);
        assert forall|it: BuyPolicyItem| #[trigger] item_at(line@, pos as int, it) implies
            item_layout(line@, pos as int, it) by {
            lemma_item_layout(line@, pos as int, it);
        }
    }
    let p1 = match skip_n(line, pos, 15) {
        Some(q) => q,
        None => {
            return None;
        },
    };
    let (piece, p2) = match parse_piece(line, p1) {
        Some(pq) => pq,
        None => {
            return None;
        },
    };
    let p3 = match skip_n(line, p2, 14) {
        Some(q) => q,
        None => {
            return None;
        },
    };
    let (num, p4) = match parse_digits(line, p3) {
        Some(vq) => vq,
        None => {
            return None;
        },
    };
    let p5 = match skip_n(line, p4, 10) {
        Some(q) => q,
        None => {
            return None;
        },
    };
    let (budget, p6) = match parse_digits(line, p5) {
        Some(vq) => vq,
        None => {
            return None;
        },
    };
    proof {
        assert forall|it: BuyPolicyItem| #[trigger] item_at(line@, pos as int, it) implies num
            == it.piece_num as u64 && budget == it.budget as u64 && p6 as int == pos + 15
            + piece_name(it.piece_type).len() + 14 + dec_rep(it.piece_num as nat).len() + 10
            + dec_rep(it.budget as nat).len() by {
            assert(piece_at(line@, p1 as int, it.piece_type));
            assert(p2 == p1 + piece_name(it.piece_type).len());
            assert(dec_at(line@, p3 as int, it.piece_num as u64));
            assert(num == it.piece_num as u64);
            assert(p3 + dec_rep(it.piece_num as u64 as nat).len() <= line@.len());
            assert(p4 as int == p3 + dec_rep(it.piece_num as u64 as nat).len());
            assert(dec_at(line@, p5 as int, it.budget as u64));
            assert(budget == it.budget as u64);
            assert(p5 + dec_rep(it.budget as u64 as nat).len() <= line@.len());
            assert(p6 as int == p5 + dec_rep(it.budget as u64 as nat).len());
            assert(dec_rep(it.piece_num as u64 as nat) == dec_rep(it.piece_num as nat));
            assert(dec_rep(it.budget as u64 as nat) == dec_rep(it.budget as nat));
        }
    }
    if num > 1000000 || budget > 1000000 {
        return None;
    }
    if p6 >= line.len() || line[p6] != ('}' as u8) {
        return None;
    }
    let built = BuyPolicyItem { piece_type: piece, piece_num: num as i64, budget: budget as i64 };
    proof {
        assert forall|it: BuyPolicyItem| #[trigger] item_at(line@, pos as int, it) implies built
            == it && p6 + 1 == pos + ser_item(it).len() by {
            assert(piece == it.piece_type);
            assert(num == it.piece_num as u64);
            assert(budget == it.budget as u64);
        }
    }
    Some((built, p6 + 1))
}

/// Entries whose numbers the reader ranges over.
pub open spec fn in_parse_range(s: Seq<BuyPolicyItem>) -> bool {
    forall|i: int|
        0 <= i < s.len() ==> 0 <= (#[trigger] s[i]).piece_num <= 1000000 && 0 <= s[i].budget
            <= 1000000
}

/// A rendered table stands at `start`.
pub open spec fn table_at(line: Seq<u8>, start: int, s: Seq<BuyPolicyItem>) -> bool {
    &&& 0 <= start
    &&& in_parse_range(s)
    &&& start + ser_table(s).len() <= line.len()
    &&& line.subrange(start, start + ser_table(s).len() as int) == ser_table(s)
}

/// What remains of a rendered table once the head and the first `t` entries
/// with their separators are consumed.
spec fn items_rest(s: Seq<BuyPolicyItem>, t: int) -> Seq<u8>
    decreases s.len() - t,
{
    if t < 0 || t >= s.len() {
        seq![(']' as u8), ('}' as u8)]
    } else if t == s.len() - 1 {
        ser_item(s[t]) + seq![(']' as u8), ('}' as u8)]
    } else {
        ser_item(s[t]) + (seq![(',' as u8)] + items_rest(s, t + 1))
    }
}

proof fn lemma_items_rest(s: Seq<BuyPolicyItem>, t: int)
    requires
        0 <= t <= s.len(),
    ensures
        items_rest(s, t) == ser_items(s.skip(t)) + seq![(']' as u8), ('}' as u8)],
    decreases s.len() - t,
{
    let close = seq![(']' as u8), ('}' as u8)];
    if t == s.len() {
        assert(s.skip(t) =~= Seq::<BuyPolicyItem>::empty());
        assert(ser_items(s.skip(t)) =~= Seq::<u8>::empty());
        assert(items_rest(s, t) =~= ser_items(s.skip(t)) + close);
    } else if t == s.len() - 1 {
        assert(s.skip(t).len() == 1);
        assert(s.skip(t)[0] == s[t]);
        assert(ser_items(s.skip(t)) == ser_item(s[t]));
    } else {
        lemma_items_rest(s, t + 1);
        assert(s.skip(t).len() >= 2);
        assert(s.skip(t).first() == s[t]);
        assert(s.skip(t).drop_first() =~= s.skip(t + 1));
        assert(ser_items(s.skip(t)) == ser_item(s[t]) + (seq![(',' as u8)] + ser_items(
            s.skip(t + 1),
        )));
        assert(items_rest(s, t) =~= ser_items(s.skip(t)) + close);
    }
}

proof fn lemma_table_shape(s: Seq<BuyPolicyItem>)
    ensures
        ser_table(s) == lit_table_head() + items_rest(s, 0),
        ser_table(s).len() == 15 + items_rest(s, 0).len(),
        items_rest(s, 0).len() >= 2,
{
    lemma_items_rest(s, 0);
    assert(s.skip(0) =~= s);
    assert(ser_table(s) =~= lit_table_head() + items_rest(s, 0));
}

/// One priority table, if a rendered one stands at `start`; whenever a
/// rendered table with entries in the reader's range stands there, exactly
/// its entries come back.
fn parse_table_at(line: &Vec<u8>, start: usize) -> (r: Option<(Vec<BuyPolicyItem>, usize)>)
    requires
        start <= line@.len(),
    ensures
        r matches Some(p) ==> start < p.1 <= line@.len() && items_nonneg(p.0@) && in_parse_range(
            p.0@,
        ),
        forall|s: Seq<BuyPolicyItem>| #[trigger] table_at(line@, start as int, s) ==> (r matches
            Some(p) && p.0@ == s && p.1 as int == start + ser_table(s).len()),
{
    let ghost l = line@;
    let line_len = line.len();
    proof {
        assert(l.len() == line_len);
        assert forall|s0: Seq<BuyPolicyItem>| #[trigger] table_at(l, start as int, s0) implies
            l.subrange(start + 15, start + ser_table(s0).len() as int) == items_rest(s0, 0)
            && ser_table(s0).len() == 15 + items_rest(s0, 0).len() && items_rest(s0, 0).len()
            >= 2 by {
            lemma_table_shape(s0);
            lemma_split_at(l, start as int, lit_table_head(), items_rest(s0, 0));
        }
    }
    let pos0 = match skip_n(line, start, 15) {
        Some(q) => q,
        None => {
            return None;
        },
    };
    let mut items: Vec<BuyPolicyItem> = Vec::new();
    if pos0 < line_len && line[pos0] == (']' as u8) {
        proof {
            assert forall|s0: Seq<BuyPolicyItem>| #[trigger] table_at(l, start as int, s0) implies
                s0.len() == 0 && start + ser_table(s0).len() == pos0 + 2 by {
                let tabend = start + ser_table(s0).len() as int;
                assert(l.subrange(pos0 as int, tabend)[0] == l[pos0 as int]);
                if s0.len() > 0 {
                    assert(items_rest(s0, 0)[0] == ser_item(s0[0])[0]);
                    assert(ser_item(s0[0])[0] == ('{' as u8));
                    assert(false);
                }
            }
        }
        match skip_n(line, pos0, 2) {
            Some(q) => {
                return Some((items, q));
            },
            None => {
                return None;
            },
        }
    }
    proof {
        assert forall|s0: Seq<BuyPolicyItem>| #[trigger] table_at(l, start as int, s0) implies
            s0.len() > 0 && items@ == s0.take(0) && pos0 as int == start + ser_table(s0).len()
            - items_rest(s0, 0).len() by {
            let tabend = start + ser_table(s0).len() as int;
            if s0.len() == 0 {
                assert(items_rest(s0, 0)[0] == (']' as u8));
                assert(l.subrange(pos0 as int, tabend)[0] == l[pos0 as int]);
                assert(pos0 < line_len);
                assert(false);
            }
            assert(items@ =~= s0.take(0));
        }
    }
    let mut pos = pos0;
    loop
        invariant
            l == line@,
            l.len() == line_len,
            start < pos <= l.len(),
            items_nonneg(items@),
            in_parse_range(items@),
            forall|s0: Seq<BuyPolicyItem>| #[trigger] table_at(l, start as int, s0) ==> {
                let t = items@.len() as int;
                &&& t < s0.len()
                &&& items@ == s0.take(t)
                &&& pos as int == start + ser_table(s0).len() - items_rest(s0, t).len()
                &&& l.subrange(pos as int, start + ser_table(s0).len() as int) == items_rest(
                    s0,
                    t,
                )
            },
        decreases l.len() - pos,
    {
        let ghost t = items@.len() as int;
        proof {
            assert forall|s0: Seq<BuyPolicyItem>| #[trigger] table_at(l, start as int, s0) implies
                item_at(l, pos as int, s0[t]) && l.subrange(
                pos + ser_item(s0[t]).len(),
                start + ser_table(s0).len() as int,
            ) == (if t == s0.len() - 1 {
                seq![(']' as u8), ('}' as u8)]
            } else {
                seq![(',' as u8)] + items_rest(s0, t + 1)
            }) by {
                let tabend = start + ser_table(s0).len() as int;
                let tail = if t == s0.len() - 1 {
                    seq![(']' as u8), ('}' as u8)]
                } else {
                    seq![(',' as u8)] + items_rest(s0, t + 1)
                };
                assert(items_rest(s0, t) == ser_item(s0[t]) + tail);
                lemma_split_at(l, pos as int, ser_item(s0[t]), tail);
            }
        }
        let (it, q) = match parse_item(line, pos) {
            Some(x) => x,
            None => {
                return None;
            },
        };
        items.push(it);
        proof {
            assert forall|s0: Seq<BuyPolicyItem>| #[trigger] table_at(l, start as int, s0) implies
                it == s0[t] && q as int == pos + ser_item(s0[t]).len() && items@ == s0.take(t + 1)
                && q < l.len() by {
                assert(s0.take(t + 1) =~= s0.take(t).push(s0[t]));
                let tabend = start + ser_table(s0).len() as int;
                assert(q as int <= tabend - 2);
            }
        }
        if q < line_len && line[q] == (',' as u8) {
            proof {
                assert forall|s0: Seq<BuyPolicyItem>| #[trigger] table_at(l, start as int, s0)
                    implies t + 1 < s0.len() && l.subrange(
                    q + 1,
                    start + ser_table(s0).len() as int,
                ) == items_rest(s0, t + 1) && q + 1 == start + ser_table(s0).len() - items_rest(
                    s0,
                    t + 1,
                ).len() by {
                    let tabend = start + ser_table(s0).len() as int;
                    assert(l.subrange(q as int, tabend)[0] == l[q as int]);
                    if t == s0.len() - 1 {
                        assert(l[q as int] == (']' as u8));
                        assert(false);
                    }
                    lemma_split_at(l, q as int, seq![(',' as u8)], items_rest(s0, t + 1));
                }
            }
            pos = q + 1;
        } else if q < line_len && line[q] == (']' as u8) {
            proof {
                assert forall|s0: Seq<BuyPolicyItem>| #[trigger] table_at(l, start as int, s0)
                    implies t + 1 == s0.len() && items@ == s0 && q + 2 == start + ser_table(
                    s0,
                ).len() by {
                    let tabend = start + ser_table(s0).len() as int;
                    assert(l.subrange(q as int, tabend)[0] == l[q as int]);
                    if t < s0.len() - 1 {
                        assert((seq![(',' as u8)] + items_rest(s0, t + 1))[0] == (',' as u8));
                        assert(false);
                    }
                    assert(items@ == s0.take(t + 1));
                    assert(s0.take(t + 1) =~= s0);
                }
            }
            match skip_n(line, q, 2) {
                Some(q2) => {
                    return Some((items, q2));
                },
                None => {
                    return None;
                },
            }
        } else {
            proof {
                assert forall|s0: Seq<BuyPolicyItem>| #[trigger] table_at(
                    l,
                    start as int,
                    s0,
                ) implies false by {
                    let tabend = start + ser_table(s0).len() as int;
                    assert(l.subrange(q as int, tabend)[0] == l[q as int]);
                    if t == s0.len() - 1 {
                        assert(l[q as int] == (']' as u8));
                    } else {
                        assert((seq![(',' as u8)] + items_rest(s0, t + 1))[0] == (',' as u8));
                        assert(l[q as int] == (',' as u8));
                    }
                }
            }
            return None;
        }
    }
}

/// A rendered record, with entries in the reader's range, is the whole line.
pub open spec fn record_at(
    line: Seq<u8>,
    items: Seq<BuyPolicyItem>,
    kings: Option<Seq<BuyPolicyItem>>,
    score: u64,
    times: u64,
) -> bool {
    &&& in_parse_range(items)
    &&& match kings {
        Option::None => true,
        Option::Some(k) => in_parse_range(k),
    }
    &&& line == ser_record_spec(items, kings, score, times)
}

/// Where each component of a rendered record stands.
spec fn record_layout(
    l: Seq<u8>,
    items: Seq<BuyPolicyItem>,
    kings: Option<Seq<BuyPolicyItem>>,
    score: u64,
    times: u64,
) -> bool {
    let tab1end = 10 + ser_table(items).len() as int;
    let k0 = tab1end + 20;
    let klen = match kings {
        Option::None => 4int,
        Option::Some(k) => ser_table(k).len() as int,
    };
    let sc0 = k0 + klen;
    let n0 = sc0 + 9;
    let ip = dec_rep((score / 1000) as nat);
    let dot = n0 + ip.len() as int;
    let f0 = dot + 1;
    let th0 = f0 + 3;
    let t0 = th0 + 9;
    let tl = dec_rep(times as nat);
    let m = (score % 1000) as int;
    &&& table_at(l, 10, items)
    &&& ser_table(items).len() >= 17
    &&& klen >= 4
    &&& ip.len() >= 1
    &&& tl.len() >= 1
    &&& match kings {
        Option::None => l[k0] == ('n' as u8),
        Option::Some(k) => table_at(l, k0, k) && l[k0] == ('{' as u8),
    }
    &&& dec_at(l, n0, (score / 1000) as u64)
    &&& (score / 1000) as u64 as nat == (score / 1000) as nat
    &&& l[dot] == ('.' as u8)
    &&& l[f0] == (48 + m / 100) as u8
    &&& l[f0 + 1] == (48 + (m / 10) % 10) as u8
    &&& l[f0 + 2] == (48 + m % 10) as u8
    &&& dec_at(l, t0, times)
    &&& l[t0 + tl.len()] == ('}' as u8)
    &&& l.len() == t0 + tl.len() + 1
}

/// The score-and-times tail of a rendered record.
spec fn record_tail(score: u64, times: u64) -> Seq<u8> {
    lit_score_head() + (dec_rep((score / 1000) as nat) + (seq![('.' as u8)] + (frac3(
        (score % 1000) as nat,
    ) + (lit_times_head() + (dec_rep(times as nat) + seq![('}' as u8)])))))
}

#[verifier::rlimit(100)]
#[verifier::spinoff_prover]
proof fn lemma_record_layout_head(
    l: Seq<u8>,
    items: Seq<BuyPolicyItem>,
    kings: Option<Seq<BuyPolicyItem>>,
    score: u64,
    times: u64,
)
    requires
        record_at(l, items, kings, score, times),
    ensures
        table_at(l, 10, items),
        ser_table(items).len() >= 17,
        (match kings {
            Option::None => 4int,
            Option::Some(k) => ser_table(k).len() as int,
        }) >= 4,
        ({
            let k0 = 10 + ser_table(items).len() + 20;
            match kings {
                Option::None => l[k0 as int] == ('n' as u8),
                Option::Some(k) => table_at(l, k0 as int, k) && l[k0 as int] == ('{' as u8),
            }
        }),
        ({
            let sc0 = 10 + ser_table(items).len() + 20 + (match kings {
                Option::None => 4int,
                Option::Some(k) => ser_table(k).len() as int,
            });
            l.subrange(sc0 as int, l.len() as int) == record_tail(score, times)
        }),
{
    let kb = match kings {
        Option::None => lit_null(),
        Option::Some(k) => ser_table(k),
    };
    lemma_record_shape(items, kings, score, times);
    lemma_table_shape(items);
    let t5 = record_tail(score, times);
    let t4 = kb + t5;
    let t3 = lit_kings_head() + t4;
    let t2 = ser_table(items) + t3;
    assert(l == lit_policy_head() + t2);
    assert(l.subrange(0, l.len() as int) =~= l);
    let tab1end = 10 + ser_table(items).len() as int;
    let k0 = tab1end + 20;
    let sc0 = k0 + kb.len() as int;
    lemma_split_at(l, 0, lit_policy_head(), t2);
    lemma_split_at(l, 10, ser_table(items), t3);
    lemma_split_at(l, tab1end, lit_kings_head(), t4);
    lemma_split_at(l, k0, kb, t5);
    assert(l.subrange(k0, k0 + kb.len() as int)[0] == l[k0]);
    match kings {
        Option::None => {
            assert(l[k0] == lit_null()[0]);
        },
        Option::Some(k) => {
            lemma_table_shape(k);
            assert(l[k0] == ser_table(k)[0]);
            assert(ser_table(k)[0] == lit_table_head()[0]);
        },
    }
}

#[verifier::rlimit(100)]
#[verifier::spinoff_prover]
proof fn lemma_record_layout_tail(l: Seq<u8>, sc0: int, score: u64, times: u64)
    requires
        0 <= sc0 <= l.len(),
        l.subrange(sc0, l.len() as int) == record_tail(score, times),
    ensures
        ({
            let n0 = sc0 + 9;
            let ip = dec_rep((score / 1000) as nat);
            let dot = n0 + ip.len() as int;
            let f0 = dot + 1;
            let t0 = f0 + 3 + 9;
            let tl = dec_rep(times as nat);
            let m = (score % 1000) as int;
            &&& ip.len() >= 1
            &&& tl.len() >= 1
            &&& dec_at(l, n0, (score / 1000) as u64)
            &&& (score / 1000) as u64 as nat == (score / 1000) as nat
            &&& l[dot] == ('.' as u8)
            &&& l[f0] == (48 + m / 100) as u8
            &&& l[f0 + 1] == (48 + (m / 10) % 10) as u8
            &&& l[f0 + 2] == (48 + m % 10) as u8
            &&& dec_at(l, t0, times)
            &&& l[t0 + tl.len()] == ('}' as u8)
            &&& l.len() == t0 + tl.len() + 1
        }),
{
    let ip = dec_rep((score / 1000) as nat);
    let fr = frac3((score % 1000) as nat);
    let tl = dec_rep(times as nat);
    let cl = seq![('}' as u8)];
    lemma_dec_digits((score / 1000) as nat);
    lemma_dec_digits(times as nat);
    let t10 = tl + cl;
    let t9 = lit_times_head() + t10;
    let t8 = fr + t9;
    let t7 = seq![('.' as u8)] + t8;
    let t6 = ip + t7;
    let n0 = sc0 + 9;
    let dot = n0 + ip.len() as int;
    let f0 = dot + 1;
    let th0 = f0 + 3;
    let t0 = th0 + 9;
    assert(l.len() - sc0 == record_tail(score, times).len());
    lemma_split_at(l, sc0, lit_score_head(), t6);
    lemma_split_at(l, n0, ip, t7);
    lemma_split_at(l, dot, seq![('.' as u8)], t8);
    lemma_split_at(l, f0, fr, t9);
    lemma_split_at(l, th0, lit_times_head(), t10);
    lemma_split_at(l, t0, tl, cl);
    assert(l.subrange(dot, dot + 1)[0] == l[dot]);
    assert(l.subrange(t0 + tl.len(), t0 + tl.len() + 1)[0] == l[t0 + tl.len()]);
    assert(l.subrange(f0, f0 + 3)[0] == l[f0]);
    assert(l.subrange(f0, f0 + 3)[1] == l[f0 + 1]);
    assert(l.subrange(f0, f0 + 3)[2] == l[f0 + 2]);
    assert(dec_rep((score / 1000) as u64 as nat) == ip);
    assert(l.subrange(n0 + ip.len(), l.len() as int)[0] == l[n0 + ip.len()]);
    assert(l[dot] == ('.' as u8));
    assert(dec_at(l, n0, (score / 1000) as u64));
    assert(l[t0 + tl.len()] == ('}' as u8));
    assert(dec_at(l, t0, times));
}

proof fn lemma_record_layout(
    l: Seq<u8>,
    items: Seq<BuyPolicyItem>,
    kings: Option<Seq<BuyPolicyItem>>,
    score: u64,
    times: u64,
)
    requires
        record_at(l, items, kings, score, times),
    ensures
        record_layout(l, items, kings, score, times),
{
    lemma_record_layout_head(l, items, kings, score, times);
    let sc0 = 10 + ser_table(items).len() + 20 + (match kings {
        Option::None => 4int,
        Option::Some(k) => ser_table(k).len() as int,
    });
    lemma_record_layout_tail(l, sc0 as int, score, times);
}

/// Reads one record line. A line is accepted only if the extracted record
/// renders back to exactly the input, so whatever comes back is the one
/// record that writes this line; and every line a record renders to is
/// accepted, yielding exactly that record. The reader speaks this canonical
/// rendering only: scores carry exactly three fraction digits (thousandths),
/// and any other spelling is rejected as malformed.
#[verifier::rlimit(100)]
pub fn parse_record(line: &Vec<u8>) -> (r: Option<PolicyEvalResult>)
    ensures
        r matches Some(rec) ==> record_ser_wf(rec) && line@ == ser_record_spec(
            rec.policy.priorities@,
            kings_items(rec.all_kings_policy),
            rec.score,
            rec.times,
        ),
        forall|items: Seq<BuyPolicyItem>, kings: Option<Seq<BuyPolicyItem>>, score: u64, times: u64|
            #[trigger] record_at(line@, items, kings, score, times) ==> (r matches Some(rec)
                && rec.policy.priorities@ == items && kings_items(rec.all_kings_policy) == kings
                && rec.score == score && rec.times == times),
{
    let ghost l = line@;
    let line_len = line.len();
    proof {
        assert(l.len() == line_len);
        assert forall|gi: Seq<BuyPolicyItem>, gk: Option<Seq<BuyPolicyItem>>, gs: u64, gt: u64|
            #[trigger] record_at(l, gi, gk, gs, gt) implies record_layout(l, gi, gk, gs, gt) by {
            lemma_record_layout(l, gi, gk, gs, gt);
        }
    }
    let mut pos = match skip_n(line, 0, 10) {
        Some(q) => q,
        None => {
            return None;
        },
    };
    let items = match parse_table_at(line, pos) {
        Some((v, q)) => {
            pos = q;
            v
        },
        None => {
            return None;
        },
    };
    pos = match skip_n(line, pos, 20) {
        Some(q) => q,
        None => {
            return None;
        },
    };
    let kings: Option<BuyPolicyConfig>;
    if pos < line_len && line[pos] == ('n' as u8) {
        pos = match skip_n(line, pos, 4) {
            Some(q) => q,
            None => {
                return None;
            },
        };
        kings = None;
    } else {
        match parse_table_at(line, pos) {
            Some((v, q)) => {
                pos = q;
                kings = Some(BuyPolicyConfig { priorities: v });
            },
            None => {
                return None;
            },
        }
    }
    pos = match skip_n(line, pos, 9) {
        Some(q) => q,
        None => {
            return None;
        },
    };
    let int_part = match parse_digits(line, pos) {
        Some((v, q)) => {
            pos = q;
            v
        },
        None => {
            return None;
        },
    };
    if pos >= line_len || line[pos] != ('.' as u8) {
        return None;
    }
    pos = pos + 1;
    if line_len - pos < 3 {
        return None;
    }
    let d1 = line[pos];
    let d2 = line[pos + 1];
    let d3 = line[pos + 2];
    if d1 < 48 || d1 > 57 || d2 < 48 || d2 > 57 || d3 < 48 || d3 > 57 {
        return None;
    }
    pos = pos + 3;
    let frac: u64 = ((d1 - 48) as u64) * 100 + ((d2 - 48) as u64) * 10 + ((d3 - 48) as u64);
    let wide_score: u128 = (int_part as u128) * 1000 + (frac as u128);
    proof {
        assert forall|gi: Seq<BuyPolicyItem>, gk: Option<Seq<BuyPolicyItem>>, gs: u64, gt: u64|
            #[trigger] record_at(l, gi, gk, gs, gt) implies wide_score == gs by {
            let m = (gs % 1000) as int;
            assert(int_part == (gs / 1000) as u64);
            assert(d1 == (48 + m / 100) as u8);
            assert(d2 == (48 + (m / 10) % 10) as u8);
            assert(d3 == (48 + m % 10) as u8);
            assert(frac == m) by (nonlinear_arith)
                requires
                    0 <= m < 1000,
                    frac == (m / 100) * 100 + ((m / 10) % 10) * 10 + m % 10,
            ;
        }
    }
    if wide_score > (u64::MAX as u128) {
        return None;
    }
    let score = wide_score as u64;
    pos = match skip_n(line, pos, 9) {
        Some(q) => q,
        None => {
            return None;
        },
    };
    let times = match parse_digits(line, pos) {
        Some((v, q)) => {
            pos = q;
            v
        },
        None => {
            return None;
        },
    };
    if pos >= line_len || line[pos] != ('}' as u8) {
        return None;
    }
    pos = pos + 1;
    if pos != line_len {
        return None;
    }
    let rec = PolicyEvalResult {
        policy: BuyPolicyConfig { priorities: items },
        all_kings_policy: kings,
        score,
        times,
    };
    let back = serialize_record(&rec);
    if bytes_eq(&back, line) {
        Some(rec)
    } else {
        proof {
            assert forall|gi: Seq<BuyPolicyItem>, gk: Option<Seq<BuyPolicyItem>>, gs: u64, gt: u64|
                #[trigger] record_at(l, gi, gk, gs, gt) implies false by {
                assert(rec.policy.priorities@ == gi);
                assert(kings_items(rec.all_kings_policy) == gk);
                assert(back@ == l);
            }
        }
        None
    }
}

/// The tables of the records scoring at least one half, in order.
pub open spec fn fifty_views(s: Seq<PolicyEvalResult>) -> Seq<Seq<BuyPolicyItem>>
    decreases s.len(),
{
    if s.len() == 0 {
        Seq::<Seq<BuyPolicyItem>>::empty()
    } else if s.last().score >= 500 {
        fifty_views(s.drop_last()).push(s.last().policy.priorities@)
    } else {
        fifty_views(s.drop_last())
    }
}

/// Splits a parsed corpus into the two opponent tiers: every record's table,
/// and the tables of the records that scored at least one half against
/// random opponents.
pub fn split_corpus(records: &Vec<PolicyEvalResult>) -> (r: (
    Vec<BuyPolicyConfig>,
    Vec<BuyPolicyConfig>,
))
    ensures
        r.0@.len() == records@.len(),
        forall|i: int|
            0 <= i < records@.len() ==> (#[trigger] r.0@[i]).priorities@
                == records@[i].policy.priorities@,
        r.1@.map_values(|c: BuyPolicyConfig| c.priorities@) == fifty_views(records@),
{
    let mut all: Vec<BuyPolicyConfig> = Vec::new();
    let mut fifty: Vec<BuyPolicyConfig> = Vec::new();
    let mut i: usize = 0;
    proof {
        assert(records@.take(0) =~= Seq::<PolicyEvalResult>::empty());
        assert(fifty@.map_values(|c: BuyPolicyConfig| c.priorities@) =~= fifty_views(
            records@.take(0),
        ));
    }
    while i < records.len()
        invariant
            0 <= i <= records@.len(),
            all@.len() == i,
            forall|j: int|
                0 <= j < i ==> (#[trigger] all@[j]).priorities@ == records@[j].policy.priorities@,
            fifty@.map_values(|c: BuyPolicyConfig| c.priorities@) == fifty_views(
                records@.take(i as int),
            ),
        decreases records@.len() - i,
    {
        proof {
            assert(records@.take(i + 1).drop_last() =~= records@.take(i as int));
            assert(records@.take(i + 1).last() == records@[i as int]);
        }
        all.push(records[i].policy.duplicate());
        if records[i].score >= 500 {
            fifty.push(records[i].policy.duplicate());
            proof {
                assert(fifty@.map_values(|c: BuyPolicyConfig| c.priorities@) =~= fifty_views(
                    records@.take(i + 1),
                ));
            }
        } else {
            proof {
                assert(fifty@.map_values(|c: BuyPolicyConfig| c.priorities@) =~= fifty_views(
                    records@.take(i + 1),
                ));
            }
        }
        i += 1;
    }
    proof {
        assert(records@.take(records@.len() as int) =~= records@);
    }
    (all, fifty)
}

/// A decimal digit byte.
pub open spec fn is_digit(b: u8) -> bool {
    48 <= b <= 57
}

proof fn lemma_dec_digits(n: nat)
    ensures
        dec_rep(n).len() >= 1,
        forall|i: int| 0 <= i < dec_rep(n).len() ==> is_digit(#[trigger] dec_rep(n)[i]),
        n >= 10 ==> dec_rep(n).len() >= 2,
    decreases n,
{
    if n >= 10 {
        lemma_dec_digits(n / 10);
        assert(dec_rep(n) == dec_rep(n / 10).push((48 + n % 10) as u8));
    }
}

proof fn lemma_dec_inj(a: nat, b: nat)
    requires
        dec_rep(a) == dec_rep(b),
    ensures
        a == b,
    decreases a,
{
    lemma_dec_digits(a);
    lemma_dec_digits(b);
    if a < 10 && b < 10 {
        assert(dec_rep(a)[0] == (48 + a) as u8);
        assert(dec_rep(b)[0] == (48 + b) as u8);
    } else if a < 10 {
        assert(dec_rep(a).len() == 1);
    } else if b < 10 {
        assert(dec_rep(b).len() == 1);
    } else {
        assert(dec_rep(a) == dec_rep(a / 10).push((48 + a % 10) as u8));
        assert(dec_rep(b) == dec_rep(b / 10).push((48 + b % 10) as u8));
        assert(dec_rep(a).last() == (48 + a % 10) as u8);
        assert(dec_rep(b).last() == (48 + b % 10) as u8);
        assert(a % 10 == b % 10);
        assert(dec_rep(a).drop_last() =~= dec_rep(a / 10));
        assert(dec_rep(b).drop_last() =~= dec_rep(b / 10));
        lemma_dec_inj(a / 10, b / 10);
    }
}

/// A stretch of a string equal to a concatenation splits into two
/// consecutive stretches.
proof fn lemma_split_at(s: Seq<u8>, pos: int, a: Seq<u8>, b: Seq<u8>)
    requires
        0 <= pos,
        pos + a.len() + b.len() <= s.len(),
        s.subrange(pos, pos + a.len() + b.len()) == a + b,
    ensures
        s.subrange(pos, pos + a.len() as int) == a,
        s.subrange(pos + a.len() as int, pos + a.len() + b.len()) == b,
{
    let w = s.subrange(pos, pos + a.len() + b.len());
    assert forall|i: int| 0 <= i < a.len() implies s.subrange(pos, pos + a.len() as int)[i]
        == a[i] by {
        assert(w[i] == (a + b)[i]);
    }
    assert(s.subrange(pos, pos + a.len() as int) =~= a);
    assert forall|i: int|
        0 <= i < b.len() implies s.subrange(pos + a.len() as int, pos + a.len() + b.len())[i]
        == b[i] by {
        assert(w[a.len() + i] == (a + b)[a.len() + i]);
    }
    assert(s.subrange(pos + a.len() as int, pos + a.len() + b.len()) =~= b);
}

/// Equal concatenations with equally long first parts split equally.
proof fn lemma_concat_cancel(a: Seq<u8>, x: Seq<u8>, b: Seq<u8>, y: Seq<u8>)
    requires
        a + x == b + y,
        a.len() == b.len(),
    ensures
        a == b,
        x == y,
{
    assert((a + x).len() == a.len() + x.len());
    assert((b + y).len() == b.len() + y.len());
    assert forall|i: int| 0 <= i < a.len() implies a[i] == b[i] by {
        assert((a + x)[i] == a[i]);
        assert((b + y)[i] == b[i]);
    }
    assert(a =~= b);
    assert(x.len() == y.len());
    assert forall|i: int| 0 <= i < x.len() implies x[i] == y[i] by {
        assert((a + x)[a.len() + i] == x[i]);
        assert((b + y)[b.len() + i] == y[i]);
    }
    assert(x =~= y);
}

/// A decimal run is delimited unambiguously by any non-digit after it.
proof fn lemma_dec_prefix(a: nat, b: nat, ra: Seq<u8>, rb: Seq<u8>)
    requires
        dec_rep(a) + ra == dec_rep(b) + rb,
        ra.len() > 0,
        rb.len() > 0,
        !is_digit(ra[0]),
        !is_digit(rb[0]),
    ensures
        a == b,
        ra == rb,
{
    lemma_dec_digits(a);
    lemma_dec_digits(b);
    let la = dec_rep(a).len() as int;
    let lb = dec_rep(b).len() as int;
    if la < lb {
        assert((dec_rep(a) + ra)[la] == ra[0]);
        assert((dec_rep(b) + rb)[la] == dec_rep(b)[la]);
        assert(false);
    } else if lb < la {
        assert((dec_rep(b) + rb)[lb] == rb[0]);
        assert((dec_rep(a) + ra)[lb] == dec_rep(a)[lb]);
        assert(false);
    }
    lemma_concat_cancel(dec_rep(a), ra, dec_rep(b), rb);
    lemma_dec_inj(a, b);
}

/// The first byte of a rendered piece name tells the pieces apart.
proof fn lemma_piece_prefix(p1: BuyablePiece, p2: BuyablePiece, r1: Seq<u8>, r2: Seq<u8>)
    requires
        piece_name(p1) + r1 == piece_name(p2) + r2,
    ensures
        p1 == p2,
        r1 == r2,
{
    assert((piece_name(p1) + r1)[0] == piece_name(p1)[0]);
    assert((piece_name(p2) + r2)[0] == piece_name(p2)[0]);
    assert(p1 == p2);
    lemma_concat_cancel(piece_name(p1), r1, piece_name(p2), r2);
}

/// One rendered entry is delimited unambiguously: equal continuations after
/// equal renderings mean equal entries and equal continuations.
#[verifier::rlimit(100)]
#[verifier::spinoff_prover]
proof fn lemma_ser_item_prefix(it1: BuyPolicyItem, it2: BuyPolicyItem, r1: Seq<u8>, r2: Seq<u8>)
    requires
        ser_item(it1) + r1 == ser_item(it2) + r2,
        it1.piece_num >= 0,
        it1.budget >= 0,
        it2.piece_num >= 0,
        it2.budget >= 0,
    ensures
        it1 == it2,
        r1 == r2,
{
    let f1 = seq![('}' as u8)] + r1;
    let e1 = dec_rep(it1.budget as nat) + f1;
    let d1 = lit_budget() + e1;
    let c1 = dec_rep(it1.piece_num as nat) + d1;
    let b1 = lit_piece_num() + c1;
    let a1 = piece_name(it1.piece_type) + b1;
    assert(ser_item(it1) + r1 =~= lit_item_head() + a1);
    let f2 = seq![('}' as u8)] + r2;
    let e2 = dec_rep(it2.budget as nat) + f2;
    let d2 = lit_budget() + e2;
    let c2 = dec_rep(it2.piece_num as nat) + d2;
    let b2 = lit_piece_num() + c2;
    let a2 = piece_name(it2.piece_type) + b2;
    assert(ser_item(it2) + r2 =~= lit_item_head() + a2);
    lemma_concat_cancel(lit_item_head(), a1, lit_item_head(), a2);
    lemma_piece_prefix(it1.piece_type, it2.piece_type, b1, b2);
    lemma_concat_cancel(lit_piece_num(), c1, lit_piece_num(), c2);
    assert(d1[0] == (',' as u8));
    assert(d2[0] == (',' as u8));
    lemma_dec_prefix(it1.piece_num as nat, it2.piece_num as nat, d1, d2);
    assert(it1.piece_num == it2.piece_num);
    lemma_concat_cancel(lit_budget(), e1, lit_budget(), e2);
    assert(f1[0] == ('}' as u8));
    assert(f2[0] == ('}' as u8));
    lemma_dec_prefix(it1.budget as nat, it2.budget as nat, f1, f2);
    assert(it1.budget == it2.budget);
    lemma_concat_cancel(seq![('}' as u8)], r1, seq![('}' as u8)], r2);
}

/// A rendered entry list followed by a closing bracket is unambiguous.
proof fn lemma_ser_items_prefix(
    s1: Seq<BuyPolicyItem>,
    s2: Seq<BuyPolicyItem>,
    r1: Seq<u8>,
    r2: Seq<u8>,
)
    requires
        ser_items(s1) + r1 == ser_items(s2) + r2,
        r1.len() > 0,
        r2.len() > 0,
        r1[0] == (']' as u8),
        r2[0] == (']' as u8),
        items_nonneg(s1),
        items_nonneg(s2),
    ensures
        s1 == s2,
        r1 == r2,
    decreases s1.len(),
{
    if s1.len() == 0 && s2.len() == 0 {
        assert(ser_items(s1) =~= Seq::<u8>::empty());
        lemma_concat_cancel(ser_items(s1), r1, ser_items(s2), r2);
        assert(s1 =~= s2);
    } else if s1.len() == 0 {
        assert((ser_items(s1) + r1)[0] == r1[0]);
        assert(ser_items(s2)[0] == lit_item_head()[0]);
        assert((ser_items(s2) + r2)[0] == ser_items(s2)[0]);
        assert(false);
    } else if s2.len() == 0 {
        assert((ser_items(s2) + r2)[0] == r2[0]);
        assert(ser_items(s1)[0] == lit_item_head()[0]);
        assert((ser_items(s1) + r1)[0] == ser_items(s1)[0]);
        assert(false);
    } else {
        let q1 = if s1.len() == 1 {
            r1
        } else {
            (seq![(',' as u8)] + ser_items(s1.drop_first())) + r1
        };
        let q2 = if s2.len() == 1 {
            r2
        } else {
            (seq![(',' as u8)] + ser_items(s2.drop_first())) + r2
        };
        assert(ser_item(s1.first()) + q1 =~= ser_items(s1) + r1);
        assert(ser_item(s2.first()) + q2 =~= ser_items(s2) + r2);
        assert(s1[0] == s1.first());
        assert(s2[0] == s2.first());
        lemma_ser_item_prefix(s1.first(), s2.first(), q1, q2);
        if s1.len() == 1 && s2.len() == 1 {
            assert(s1[0] == s2[0]);
            assert(s1 =~= s2);
        } else if s1.len() == 1 {
            assert(q1[0] == (']' as u8));
            assert(q2[0] == (',' as u8));
            assert(false);
        } else if s2.len() == 1 {
            assert(q2[0] == (']' as u8));
            assert(q1[0] == (',' as u8));
            assert(false);
        } else {
            let u1 = ser_items(s1.drop_first()) + r1;
            let u2 = ser_items(s2.drop_first()) + r2;
            assert(q1 =~= seq![(',' as u8)] + u1);
            assert(q2 =~= seq![(',' as u8)] + u2);
            lemma_concat_cancel(seq![(',' as u8)], u1, seq![(',' as u8)], u2);
            assert forall|i: int|
                0 <= i < s1.drop_first().len() implies (#[trigger] s1.drop_first()[i]).piece_num
                >= 0 && s1.drop_first()[i].budget >= 0 by {
                assert(s1.drop_first()[i] == s1[i + 1]);
            }
            assert forall|i: int|
                0 <= i < s2.drop_first().len() implies (#[trigger] s2.drop_first()[i]).piece_num
                >= 0 && s2.drop_first()[i].budget >= 0 by {
                assert(s2.drop_first()[i] == s2[i + 1]);
            }
            lemma_ser_items_prefix(s1.drop_first(), s2.drop_first(), r1, r2);
            assert(s1.len() == s2.len());
            assert forall|i: int| 0 <= i < s1.len() implies s1[i] == s2[i] by {
                if i == 0 {
                    assert(s1[0] == s1.first());
                    assert(s2[0] == s2.first());
                } else {
                    assert(s1.drop_first()[i - 1] == s1[i]);
                    assert(s2.drop_first()[i - 1] == s2[i]);
                }
            }
            assert(s1 =~= s2);
        }
    }
}

/// A rendered table is delimited unambiguously.
proof fn lemma_ser_table_prefix(
    s1: Seq<BuyPolicyItem>,
    s2: Seq<BuyPolicyItem>,
    r1: Seq<u8>,
    r2: Seq<u8>,
)
    requires
        ser_table(s1) + r1 == ser_table(s2) + r2,
        items_nonneg(s1),
        items_nonneg(s2),
    ensures
        s1 == s2,
        r1 == r2,
{
    let close = seq![(']' as u8), ('}' as u8)];
    let w1 = close + r1;
    let w2 = close + r2;
    let v1 = ser_items(s1) + w1;
    let v2 = ser_items(s2) + w2;
    assert(ser_table(s1) + r1 =~= lit_table_head() + v1);
    assert(ser_table(s2) + r2 =~= lit_table_head() + v2);
    lemma_concat_cancel(lit_table_head(), v1, lit_table_head(), v2);
    assert(w1[0] == (']' as u8));
    assert(w2[0] == (']' as u8));
    lemma_ser_items_prefix(s1, s2, w1, w2);
    lemma_concat_cancel(close, r1, close, r2);
}

proof fn lemma_assoc(a: Seq<u8>, b: Seq<u8>, c: Seq<u8>)
    ensures
        (a + b) + c == a + (b + c),
{
    assert((a + b) + c =~= a + (b + c));
}

/// The rendered record, re-grouped from the front for stripping.
proof fn lemma_record_shape(
    items: Seq<BuyPolicyItem>,
    kings: Option<Seq<BuyPolicyItem>>,
    score: u64,
    times: u64,
)
    ensures
        ser_record_spec(items, kings, score, times) == lit_policy_head() + (ser_table(items) + (
        lit_kings_head() + ((match kings {
            Option::None => lit_null(),
            Option::Some(k) => ser_table(k),
        }) + (lit_score_head() + (dec_rep((score / 1000) as nat) + (seq![('.' as u8)] + (frac3(
            (score % 1000) as nat,
        ) + (lit_times_head() + (dec_rep(times as nat) + seq![('}' as u8)]))))))))),
{
    let l1 = lit_policy_head();
    let l2 = ser_table(items);
    let l3 = lit_kings_head();
    let l4 = match kings {
        Option::None => lit_null(),
        Option::Some(k) => ser_table(k),
    };
    let l5 = lit_score_head();
    let l6 = dec_rep((score / 1000) as nat);
    let l7 = seq![('.' as u8)];
    let l8 = frac3((score % 1000) as nat);
    let l9 = lit_times_head();
    let l10 = dec_rep(times as nat);
    let l11 = seq![('}' as u8)];
    let p2 = l1 + l2;
    let p3 = p2 + l3;
    let p4 = p3 + l4;
    let p5 = p4 + l5;
    let p6 = p5 + l6;
    let p7 = p6 + l7;
    let p8 = p7 + l8;
    let p9 = p8 + l9;
    assert(ser_record_spec(items, kings, score, times) == ((p9 + l10) + l11));
    lemma_assoc(p9, l10, l11);
    let s10 = l10 + l11;
    lemma_assoc(p8, l9, s10);
    let s9 = l9 + s10;
    lemma_assoc(p7, l8, s9);
    let s8 = l8 + s9;
    lemma_assoc(p6, l7, s8);
    let s7 = l7 + s8;
    lemma_assoc(p5, l6, s7);
    let s6 = l6 + s7;
    lemma_assoc(p4, l5, s6);
    let s5 = l5 + s6;
    lemma_assoc(p3, l4, s5);
    let s4 = l4 + s5;
    lemma_assoc(p2, l3, s4);
    let s3 = l3 + s4;
    lemma_assoc(l1, l2, s3);
}

/// Round trip: one line, one record. Two records whose rendered lines agree
/// are the same record: the same priority tables entry for entry, the same
/// score, and the same trial count. Together with what `parse_record`
/// ensures, a successfully parsed copy of a serialized record can only be
/// that record.
#[verifier::rlimit(100)]
pub proof fn lemma_record_line_unique(
    items1: Seq<BuyPolicyItem>,
    kings1: Option<Seq<BuyPolicyItem>>,
    score1: u64,
    times1: u64,
    items2: Seq<BuyPolicyItem>,
    kings2: Option<Seq<BuyPolicyItem>>,
    score2: u64,
    times2: u64,
)
    requires
        ser_record_spec(items1, kings1, score1, times1) == ser_record_spec(
            items2,
            kings2,
            score2,
            times2,
        ),
        items_nonneg(items1),
        items_nonneg(items2),
        kings1 matches Some(k) ==> items_nonneg(k),
        kings2 matches Some(k) ==> items_nonneg(k),
    ensures
        items1 == items2,
        kings1 == kings2,
        score1 == score2,
        times1 == times2,
{
    let kbytes1 = match kings1 {
        Option::None => lit_null(),
        Option::Some(k) => ser_table(k),
    };
    let kbytes2 = match kings2 {
        Option::None => lit_null(),
        Option::Some(k) => ser_table(k),
    };
    let close1 = dec_rep(times1 as nat) + seq![('}' as u8)];
    let close2 = dec_rep(times2 as nat) + seq![('}' as u8)];
    let frac_on1 = frac3((score1 % 1000) as nat) + (lit_times_head() + close1);
    let frac_on2 = frac3((score2 % 1000) as nat) + (lit_times_head() + close2);
    let num_on1 = dec_rep((score1 / 1000) as nat) + (seq![('.' as u8)] + frac_on1);
    let num_on2 = dec_rep((score2 / 1000) as nat) + (seq![('.' as u8)] + frac_on2);
    let score_on1 = lit_score_head() + num_on1;
    let score_on2 = lit_score_head() + num_on2;
    let kings_on1 = kbytes1 + score_on1;
    let kings_on2 = kbytes2 + score_on2;
    let table_on1 = ser_table(items1) + (lit_kings_head() + kings_on1);
    let table_on2 = ser_table(items2) + (lit_kings_head() + kings_on2);
    lemma_record_shape(items1, kings1, score1, times1);
    lemma_record_shape(items2, kings2, score2, times2);
    assert(ser_record_spec(items1, kings1, score1, times1) == lit_policy_head() + table_on1);
    assert(ser_record_spec(items2, kings2, score2, times2) == lit_policy_head() + table_on2);
    lemma_concat_cancel(lit_policy_head(), table_on1, lit_policy_head(), table_on2);
    lemma_ser_table_prefix(
        items1,
        items2,
        lit_kings_head() + kings_on1,
        lit_kings_head() + kings_on2,
    );
    lemma_concat_cancel(lit_kings_head(), kings_on1, lit_kings_head(), kings_on2);
    match (kings1, kings2) {
        (Option::None, Option::None) => {
            lemma_concat_cancel(lit_null(), score_on1, lit_null(), score_on2);
        },
        (Option::None, Option::Some(k2)) => {
            assert(kings_on1[0] == lit_null()[0]);
            assert(kings_on2[0] == lit_table_head()[0]);
            assert(false);
        },
        (Option::Some(k1), Option::None) => {
            assert(kings_on2[0] == lit_null()[0]);
            assert(kings_on1[0] == lit_table_head()[0]);
            assert(false);
        },
        (Option::Some(k1), Option::Some(k2)) => {
            lemma_ser_table_prefix(k1, k2, score_on1, score_on2);
        },
    }
    lemma_concat_cancel(lit_score_head(), num_on1, lit_score_head(), num_on2);
    assert((seq![('.' as u8)] + frac_on1)[0] == ('.' as u8));
    assert((seq![('.' as u8)] + frac_on2)[0] == ('.' as u8));
    lemma_dec_prefix(
        (score1 / 1000) as nat,
        (score2 / 1000) as nat,
        seq![('.' as u8)] + frac_on1,
        seq![('.' as u8)] + frac_on2,
    );
    lemma_concat_cancel(seq![('.' as u8)], frac_on1, seq![('.' as u8)], frac_on2);
    let m1 = (score1 % 1000) as nat;
    let m2 = (score2 % 1000) as nat;
    lemma_concat_cancel(frac3(m1), lit_times_head() + close1, frac3(m2), lit_times_head() + close2);
    assert(frac3(m1)[0] == frac3(m2)[0] && frac3(m1)[1] == frac3(m2)[1] && frac3(m1)[2] == frac3(
        m2,
    )[2]);
    assert(m1 / 100 == m2 / 100 && (m1 / 10) % 10 == (m2 / 10) % 10 && m1 % 10 == m2 % 10);
    assert(m1 == m2) by (nonlinear_arith)
        requires
            0 <= m1 < 1000,
            0 <= m2 < 1000,
            m1 / 100 == m2 / 100,
            (m1 / 10) % 10 == (m2 / 10) % 10,
            m1 % 10 == m2 % 10,
    ;
    assert(score1 == score2);
    lemma_concat_cancel(lit_times_head(), close1, lit_times_head(), close2);
    assert((seq![('}' as u8)])[0] == ('}' as u8));
    lemma_dec_prefix(
        times1 as nat,
        times2 as nat,
        seq![('}' as u8)],
        seq![('}' as u8)],
    );
}

/// A non-empty digit run stands at `pos`, ended by the string's end or a
/// non-digit.
pub open spec fn digits_at(s: Seq<u8>, pos: int, fd: Seq<u8>) -> bool {
    &&& 0 <= pos
    &&& fd.len() >= 1
    &&& (forall|i: int| 0 <= i < fd.len() ==> is_digit(#[trigger] fd[i]))
    &&& pos + fd.len() <= s.len()
    &&& s.subrange(pos, pos + fd.len() as int) == fd
    &&& (pos + fd.len() == s.len() || !is_digit(s[pos + fd.len()]))
}

/// The maximal digit run starting at `pos`, as bytes; nothing if no digit
/// stands there. Whenever a delimited digit run stands at `pos`, exactly
/// that run comes back.
fn parse_digit_run(line: &Vec<u8>, pos: usize) -> (r: Option<(Vec<u8>, usize)>)
    requires
        pos <= line@.len(),
    ensures
        r matches Some(p) ==> pos < p.1 <= line@.len() && digits_at(line@, pos as int, p.0@)
            && p.1 as int == pos + p.0@.len(),
        forall|fd: Seq<u8>| #[trigger] digits_at(line@, pos as int, fd) ==> (r matches Some(p)
            && p.0@ == fd && p.1 as int == pos + fd.len()),
{
    let ghost s = line@;
    let mut i = pos;
    let mut run: Vec<u8> = Vec::new();
    let mut stop = false;
    while i < line.len() && !stop
        invariant
            s == line@,
            pos <= i <= s.len(),
            run@.len() == i - pos,
            run@ == s.subrange(pos as int, i as int),
            forall|j: int| 0 <= j < run@.len() ==> is_digit(#[trigger] run@[j]),
            stop ==> i < s.len() && !is_digit(s[i as int]),
        decreases s.len() - i + (if stop { 0int } else { 1int }),
    {
        let b = line[i];
        if b < 48 || b > 57 {
            stop = true;
        } else {
            run.push(b);
            proof {
                assert(run@ =~= s.subrange(pos as int, i + 1));
            }
            i += 1;
        }
    }
    if run.len() == 0 {
        proof {
            assert forall|fd: Seq<u8>| #[trigger] digits_at(s, pos as int, fd) implies false by {
                assert(i == pos);
                if pos < s.len() {
                    assert(s.subrange(pos as int, pos + fd.len() as int)[0] == s[pos as int]);
                    assert(is_digit(fd[0]));
                }
            }
        }
        None
    } else {
        proof {
            assert(digits_at(s, pos as int, run@));
            assert forall|fd: Seq<u8>| #[trigger] digits_at(s, pos as int, fd) implies run@ == fd by {
                if fd.len() < run@.len() {
                    assert(s.subrange(pos as int, i as int)[fd.len() as int] == s[pos
                        + fd.len()]);
                    assert(is_digit(run@[fd.len() as int]));
                    assert(false);
                }
                if fd.len() > run@.len() {
                    assert(s.subrange(pos as int, pos + fd.len() as int)[run@.len() as int]
                        == s[i as int]);
                    assert(is_digit(fd[run@.len() as int]));
                    assert(i < s.len() || pos + fd.len() <= s.len());
                    assert(false);
                }
                assert(run@ =~= fd);
            }
        }
        Some((run, i))
    }
}

/// The thousandths a fraction digit run names: its first three digits,
/// zero-padded on the right.
pub open spec fn trunc3_val(fd: Seq<u8>) -> int {
    (fd[0] - 48) * 100 + (if fd.len() >= 2 {
        (fd[1] - 48) * 10
    } else {
        0int
    }) + (if fd.len() >= 3 {
        fd[2] - 48
    } else {
        0int
    })
}

/// Reads the thousandths off a fraction digit run.
fn trunc3(run: &Vec<u8>) -> (r: u64)
    requires
        run@.len() >= 1,
        forall|i: int| 0 <= i < run@.len() ==> is_digit(#[trigger] run@[i]),
    ensures
        r == trunc3_val(run@),
        r <= 999,
{
    let d0 = ((run[0] - 48) as u64) * 100;
    let d1 = if run.len() >= 2 {
        ((run[1] - 48) as u64) * 10
    } else {
        0
    };
    let d2 = if run.len() >= 3 {
        (run[2] - 48) as u64
    } else {
        0
    };
    d0 + d1 + d2
}

/// A record line in the tolerant spelling: as the canonical rendering, but
/// with any non-empty digit run as the score's fraction.
pub open spec fn ser_record_flexible(
    items: Seq<BuyPolicyItem>,
    kings: Option<Seq<BuyPolicyItem>>,
    int_part: u64,
    fd: Seq<u8>,
    times: u64,
) -> Seq<u8> {
    lit_policy_head() + ser_table(items) + lit_kings_head() + (match kings {
        Option::None => lit_null(),
        Option::Some(k) => ser_table(k),
    }) + lit_score_head() + dec_rep(int_part as nat) + seq![('.' as u8)] + fd + lit_times_head()
        + dec_rep(times as nat) + seq![('}' as u8)]
}

/// The score-and-times tail of a tolerantly spelled record.
spec fn record_tail_flexible(int_part: u64, fd: Seq<u8>, times: u64) -> Seq<u8> {
    lit_score_head() + (dec_rep(int_part as nat) + (seq![('.' as u8)] + (fd + (lit_times_head() + (
    dec_rep(times as nat) + seq![('}' as u8)])))))
}

/// A tolerantly spelled record, with entries in the reader's range, is the
/// whole line.
pub open spec fn flexible_record_at(
    line: Seq<u8>,
    items: Seq<BuyPolicyItem>,
    kings: Option<Seq<BuyPolicyItem>>,
    int_part: u64,
    fd: Seq<u8>,
    times: u64,
) -> bool {
    &&& in_parse_range(items)
    &&& match kings {
        Option::None => true,
        Option::Some(k) => in_parse_range(k),
    }
    &&& fd.len() >= 1
    &&& (forall|i: int| 0 <= i < fd.len() ==> is_digit(#[trigger] fd[i]))
    &&& int_part <= 18446744073709550
    &&& line == ser_record_flexible(items, kings, int_part, fd, times)
}

#[verifier::rlimit(100)]
#[verifier::spinoff_prover]
proof fn lemma_flexible_shape(
    items: Seq<BuyPolicyItem>,
    kings: Option<Seq<BuyPolicyItem>>,
    int_part: u64,
    fd: Seq<u8>,
    times: u64,
)
    ensures
        ser_record_flexible(items, kings, int_part, fd, times) == lit_policy_head() + (ser_table(
            items,
        ) + (lit_kings_head() + ((match kings {
            Option::None => lit_null(),
            Option::Some(k) => ser_table(k),
        }) + record_tail_flexible(int_part, fd, times)))),
{
    let l1 = lit_policy_head();
    let l2 = ser_table(items);
    let l3 = lit_kings_head();
    let l4 = match kings {
        Option::None => lit_null(),
        Option::Some(k) => ser_table(k),
    };
    let l5 = lit_score_head();
    let l6 = dec_rep(int_part as nat);
    let l7 = seq![('.' as u8)];
    let l8 = fd;
    let l9 = lit_times_head();
    let l10 = dec_rep(times as nat);
    let l11 = seq![('}' as u8)];
    let p2 = l1 + l2;
    let p3 = p2 + l3;
    let p4 = p3 + l4;
    let p5 = p4 + l5;
    let p6 = p5 + l6;
    let p7 = p6 + l7;
    let p8 = p7 + l8;
    let p9 = p8 + l9;
    assert(ser_record_flexible(items, kings, int_part, fd, times) == ((p9 + l10) + l11));
    lemma_assoc(p9, l10, l11);
    let s10 = l10 + l11;
    lemma_assoc(p8, l9, s10);
    let s9 = l9 + s10;
    lemma_assoc(p7, l8, s9);
    let s8 = l8 + s9;
    lemma_assoc(p6, l7, s8);
    let s7 = l7 + s8;
    lemma_assoc(p5, l6, s7);
    let s6 = l6 + s7;
    lemma_assoc(p4, l5, s6);
    let s5 = l5 + s6;
    lemma_assoc(p3, l4, s5);
    let s4 = l4 + s5;
    lemma_assoc(p2, l3, s4);
    let s3 = l3 + s4;
    lemma_assoc(l1, l2, s3);
}

#[verifier::rlimit(100)]
#[verifier::spinoff_prover]
proof fn lemma_flexible_layout_head(
    l: Seq<u8>,
    items: Seq<BuyPolicyItem>,
    kings: Option<Seq<BuyPolicyItem>>,
    int_part: u64,
    fd: Seq<u8>,
    times: u64,
)
    requires
        flexible_record_at(l, items, kings, int_part, fd, times),
    ensures
        table_at(l, 10, items),
        ser_table(items).len() >= 17,
        (match kings {
            Option::None => 4int,
            Option::Some(k) => ser_table(k).len() as int,
        }) >= 4,
        ({
            let k0 = 10 + ser_table(items).len() + 20;
            match kings {
                Option::None => l[k0 as int] == ('n' as u8),
                Option::Some(k) => table_at(l, k0 as int, k) && l[k0 as int] == ('{' as u8),
            }
        }),
        ({
            let sc0 = 10 + ser_table(items).len() + 20 + (match kings {
                Option::None => 4int,
                Option::Some(k) => ser_table(k).len() as int,
            });
            l.subrange(sc0 as int, l.len() as int) == record_tail_flexible(int_part, fd, times)
        }),
{
    let kb = match kings {
        Option::None => lit_null(),
        Option::Some(k) => ser_table(k),
    };
    lemma_flexible_shape(items, kings, int_part, fd, times);
    lemma_table_shape(items);
    let t5 = record_tail_flexible(int_part, fd, times);
    let t4 = kb + t5;
    let t3 = lit_kings_head() + t4;
    let t2 = ser_table(items) + t3;
    assert(l == lit_policy_head() + t2);
    assert(l.subrange(0, l.len() as int) =~= l);
    let tab1end = 10 + ser_table(items).len() as int;
    let k0 = tab1end + 20;
    let sc0 = k0 + kb.len() as int;
    lemma_split_at(l, 0, lit_policy_head(), t2);
    lemma_split_at(l, 10, ser_table(items), t3);
    lemma_split_at(l, tab1end, lit_kings_head(), t4);
    lemma_split_at(l, k0, kb, t5);
    assert(l.subrange(k0, k0 + kb.len() as int)[0] == l[k0]);
    match kings {
        Option::None => {
            assert(l[k0] == lit_null()[0]);
        },
        Option::Some(k) => {
            lemma_table_shape(k);
            assert(l[k0] == ser_table(k)[0]);
            assert(ser_table(k)[0] == lit_table_head()[0]);
        },
    }
}

#[verifier::rlimit(100)]
#[verifier::spinoff_prover]
proof fn lemma_flexible_layout_tail(l: Seq<u8>, sc0: int, int_part: u64, fd: Seq<u8>, times: u64)
    requires
        0 <= sc0 <= l.len(),
        fd.len() >= 1,
        forall|i: int| 0 <= i < fd.len() ==> is_digit(#[trigger] fd[i]),
        l.subrange(sc0, l.len() as int) == record_tail_flexible(int_part, fd, times),
    ensures
        ({
            let n0 = sc0 + 9;
            let ip = dec_rep(int_part as nat);
            let dot = n0 + ip.len() as int;
            let f0 = dot + 1;
            let t0 = f0 + fd.len() + 9;
            let tl = dec_rep(times as nat);
            &&& ip.len() >= 1
            &&& tl.len() >= 1
            &&& dec_at(l, n0, int_part)
            &&& l[dot] == ('.' as u8)
            &&& digits_at(l, f0, fd)
            &&& dec_at(l, t0, times)
            &&& l[t0 + tl.len()] == ('}' as u8)
            &&& l.len() == t0 + tl.len() + 1
        }),
{
    let ip = dec_rep(int_part as nat);
    let tl = dec_rep(times as nat);
    let cl = seq![('}' as u8)];
    lemma_dec_digits(int_part as nat);
    lemma_dec_digits(times as nat);
    let t10 = tl + cl;
    let t9 = lit_times_head() + t10;
    let t8 = fd + t9;
    let t7 = seq![('.' as u8)] + t8;
    let t6 = ip + t7;
    let n0 = sc0 + 9;
    let dot = n0 + ip.len() as int;
    let f0 = dot + 1;
    let th0 = f0 + fd.len() as int;
    let t0 = th0 + 9;
    assert(l.len() - sc0 == record_tail_flexible(int_part, fd, times).len());
    lemma_split_at(l, sc0, lit_score_head(), t6);
    lemma_split_at(l, n0, ip, t7);
    lemma_split_at(l, dot, seq![('.' as u8)], t8);
    lemma_split_at(l, f0, fd, t9);
    lemma_split_at(l, th0, lit_times_head(), t10);
    lemma_split_at(l, t0, tl, cl);
    assert(l.subrange(dot, dot + 1)[0] == l[dot]);
    assert(l.subrange(t0 + tl.len(), t0 + tl.len() + 1)[0] == l[t0 + tl.len()]);
    assert(dec_rep(int_part as nat) == ip);
    assert(l.subrange(n0 + ip.len(), l.len() as int)[0] == l[n0 + ip.len()]);
    assert(l[dot] == ('.' as u8));
    assert(dec_at(l, n0, int_part));
    assert(l.subrange(th0, l.len() as int)[0] == l[th0]);
    assert(l[th0] == (',' as u8));
    assert(digits_at(l, f0, fd));
    assert(l[t0 + tl.len()] == ('}' as u8));
    assert(dec_at(l, t0, times));
}

/// Renders the tolerant spelling of a record: the given fraction digits
/// stand verbatim where the canonical writer puts the three thousandths
/// digits.
#[verifier::rlimit(100)]
fn serialize_flexible(
    policy: &BuyPolicyConfig,
    kings: &Option<BuyPolicyConfig>,
    int_part: u64,
    fd: &Vec<u8>,
    times: u64,
) -> (out: Vec<u8>)
    requires
        items_nonneg(policy.priorities@),
        match kings {
            Option::None => true,
            Option::Some(c) => items_nonneg(c.priorities@),
        },
    ensures
        out@ == ser_record_flexible(
            policy.priorities@,
            (match kings {
                Option::None => Option::<Seq<BuyPolicyItem>>::None,
                Option::Some(c) => Some(c.priorities@),
            }),
            int_part,
            fd@,
            times,
        ),
{
    let mut out: Vec<u8> = Vec::new();
    out.push(('{' as u8));
    out.push(('"' as u8));
    out.push(('p' as u8));
    out.push(('o' as u8));
    out.push(('l' as u8));
    out.push(('i' as u8));
    out.push(('c' as u8));
    out.push(('y' as u8));
    out.push(('"' as u8));
    out.push((':' as u8));
    proof {
        assert(out@ =~= lit_policy_head());
    }
    push_table(&mut out, policy);
    let ghost mid = out@;
    out.push((',' as u8));
    out.push(('"' as u8));
    out.push(('a' as u8));
    out.push(('l' as u8));
    out.push(('l' as u8));
    out.push(('_' as u8));
    out.push(('k' as u8));
    out.push(('i' as u8));
    out.push(('n' as u8));
    out.push(('g' as u8));
    out.push(('s' as u8));
    out.push(('_' as u8));
    out.push(('p' as u8));
    out.push(('o' as u8));
    out.push(('l' as u8));
    out.push(('i' as u8));
    out.push(('c' as u8));
    out.push(('y' as u8));
    out.push(('"' as u8));
    out.push((':' as u8));
    proof {
        assert(out@ =~= mid + lit_kings_head());
    }
    match kings {
        Option::None => {
            out.push(('n' as u8));
            out.push(('u' as u8));
            out.push(('l' as u8));
            out.push(('l' as u8));
            proof {
                assert(out@ =~= mid + lit_kings_head() + lit_null());
            }
        },
        Option::Some(cfg) => {
            push_table(&mut out, cfg);
        },
    }
    let ghost mid2 = out@;
    out.push((',' as u8));
    out.push(('"' as u8));
    out.push(('s' as u8));
    out.push(('c' as u8));
    out.push(('o' as u8));
    out.push(('r' as u8));
    out.push(('e' as u8));
    out.push(('"' as u8));
    out.push((':' as u8));
    proof {
        assert(out@ =~= mid2 + lit_score_head());
    }
    push_dec(&mut out, int_part);
    out.push(('.' as u8));
    let ghost mid3 = out@;
    let mut i: usize = 0;
    while i < fd.len()
        invariant
            0 <= i <= fd@.len(),
            out@ == mid3 + fd@.take(i as int),
        decreases fd@.len() - i,
    {
        let b = fd[i];
        out.push(b);
        proof {
            assert(out@ =~= mid3 + fd@.take(i + 1));
        }
        i += 1;
    }
    proof {
        assert(fd@.take(fd@.len() as int) =~= fd@);
    }
    let ghost mid4 = out@;
    out.push((',' as u8));
    out.push(('"' as u8));
    out.push(('t' as u8));
    out.push(('i' as u8));
    out.push(('m' as u8));
    out.push(('e' as u8));
    out.push(('s' as u8));
    out.push(('"' as u8));
    out.push((':' as u8));
    proof {
        assert(out@ =~= mid4 + lit_times_head());
    }
    push_dec(&mut out, times);
    out.push(('}' as u8));
    proof {
        assert(out@ =~= ser_record_flexible(
            policy.priorities@,
            (match kings {
                Option::None => Option::<Seq<BuyPolicyItem>>::None,
                Option::Some(c) => Some(c.priorities@),
            }),
            int_part,
            fd@,
            times,
        ));
    }
    out
}

/// Reads one record line in the tolerant spelling the original stream used
/// for scores: any non-empty digit run may follow the decimal point, and
/// the score is taken to its thousandths by truncation. A line is accepted
/// only if re-rendering the extracted components with the fraction digits
/// as read reproduces it exactly, and every tolerantly spelled record line
/// is accepted. The canonical three-digit spelling is a special case, so
/// everything `parse_record` accepts is accepted here too.
#[verifier::rlimit(100)]
pub fn parse_record_flexible(line: &Vec<u8>) -> (r: Option<PolicyEvalResult>)
    ensures
        r matches Some(rec) ==> record_ser_wf(rec) && exists|ip: u64, fd: Seq<u8>|
            #[trigger] flexible_record_at(
                line@,
                rec.policy.priorities@,
                kings_items(rec.all_kings_policy),
                ip,
                fd,
                rec.times,
            ) && rec.score == ip * 1000 + trunc3_val(fd),
        forall|items: Seq<BuyPolicyItem>, kings: Option<Seq<BuyPolicyItem>>, ip: u64, fd: Seq<
            u8,
        >, times: u64|
            #[trigger] flexible_record_at(line@, items, kings, ip, fd, times) ==> (r matches Some(
                rec,
            ) && rec.policy.priorities@ == items && kings_items(rec.all_kings_policy) == kings
                && rec.times == times && rec.score == ip * 1000 + trunc3_val(fd)),
{
    let ghost l = line@;
    let line_len = line.len();
    proof {
        assert(l.len() == line_len);
        assert forall|gi: Seq<BuyPolicyItem>, gk: Option<Seq<BuyPolicyItem>>, gp: u64, gf: Seq<
            u8,
        >, gt: u64|
            #[trigger] flexible_record_at(l, gi, gk, gp, gf, gt) implies table_at(l, 10, gi)
            && ser_table(gi).len() >= 17 && ({
            let k0 = 10 + ser_table(gi).len() + 20;
            let klen = match gk {
                Option::None => 4int,
                Option::Some(k) => ser_table(k).len() as int,
            };
            let sc0 = k0 + klen;
            let n0 = sc0 + 9;
            let ip_d = dec_rep(gp as nat);
            let dot = n0 + ip_d.len() as int;
            let f0 = dot + 1;
            let t0 = f0 + gf.len() + 9;
            let tl = dec_rep(gt as nat);
            &&& klen >= 4
            &&& (match gk {
                Option::None => l[k0 as int] == ('n' as u8),
                Option::Some(k) => table_at(l, k0 as int, k) && l[k0 as int] == ('{' as u8),
            })
            &&& dec_at(l, n0, gp)
            &&& l[dot] == ('.' as u8)
            &&& digits_at(l, f0, gf)
            &&& dec_at(l, t0, gt)
            &&& l[t0 + tl.len()] == ('}' as u8)
            &&& l.len() == t0 + tl.len() + 1
        }) by {
            lemma_flexible_layout_head(l, gi, gk, gp, gf, gt);
            let sc0 = 10 + ser_table(gi).len() + 20 + (match gk {
                Option::None => 4int,
                Option::Some(k) => ser_table(k).len() as int,
            });
            lemma_flexible_layout_tail(l, sc0 as int, gp, gf, gt);
        }
    }
    let mut pos = match skip_n(line, 0, 10) {
        Some(q) => q,
        None => {
            return None;
        },
    };
    let items = match parse_table_at(line, pos) {
        Some((v, q)) => {
            pos = q;
            v
        },
        None => {
            return None;
        },
    };
    pos = match skip_n(line, pos, 20) {
        Some(q) => q,
        None => {
            return None;
        },
    };
    let kings: Option<BuyPolicyConfig>;
    if pos < line_len && line[pos] == ('n' as u8) {
        pos = match skip_n(line, pos, 4) {
            Some(q) => q,
            None => {
                return None;
            },
        };
        kings = None;
    } else {
        match parse_table_at(line, pos) {
            Some((v, q)) => {
                pos = q;
                kings = Some(BuyPolicyConfig { priorities: v });
            },
            None => {
                return None;
            },
        }
    }
    pos = match skip_n(line, pos, 9) {
        Some(q) => q,
        None => {
            return None;
        },
    };
    let int_part = match parse_digits(line, pos) {
        Some((v, q)) => {
            pos = q;
            v
        },
        None => {
            return None;
        },
    };
    if pos >= line_len || line[pos] != ('.' as u8) {
        return None;
    }
    pos = pos + 1;
    let run = match parse_digit_run(line, pos) {
        Some((v, q)) => {
            pos = q;
            v
        },
        None => {
            return None;
        },
    };
    proof {
        assert forall|gi: Seq<BuyPolicyItem>, gk: Option<Seq<BuyPolicyItem>>, gp: u64, gf: Seq<
            u8,
        >, gt: u64|
            #[trigger] flexible_record_at(l, gi, gk, gp, gf, gt) implies int_part == gp && run@
            == gf by {}
    }
    if int_part > 18446744073709550 {
        return None;
    }
    let frac = trunc3(&run);
    let score = int_part * 1000 + frac;
    pos = match skip_n(line, pos, 9) {
        Some(q) => q,
        None => {
            return None;
        },
    };
    let times = match parse_digits(line, pos) {
        Some((v, q)) => {
            pos = q;
            v
        },
        None => {
            return None;
        },
    };
    if pos >= line_len || line[pos] != ('}' as u8) {
        return None;
    }
    pos = pos + 1;
    if pos != line_len {
        return None;
    }
    let rec = PolicyEvalResult {
        policy: BuyPolicyConfig { priorities: items },
        all_kings_policy: kings,
        score,
        times,
    };
    let back = serialize_flexible(&rec.policy, &rec.all_kings_policy, int_part, &run, times);
    if bytes_eq(&back, line) {
        proof {
            assert(flexible_record_at(
                l,
                rec.policy.priorities@,
                kings_items(rec.all_kings_policy),
                int_part,
                run@,
                rec.times,
            ));
        }
        Some(rec)
    } else {
        proof {
            assert forall|gi: Seq<BuyPolicyItem>, gk: Option<Seq<BuyPolicyItem>>, gp: u64, gf: Seq<
                u8,
            >, gt: u64|
                #[trigger] flexible_record_at(l, gi, gk, gp, gf, gt) implies false by {
                assert(rec.policy.priorities@ == gi);
                assert(kings_items(rec.all_kings_policy) == gk);
                assert(back@ == l);
            }
        }
        None
    }
}

} // verus!
