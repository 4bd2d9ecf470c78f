//! The structured content a block carries, and its canonical textual
//! form: the fixed JSON schema
//! `{"proof_of_work":N,"transactions":[{"from":S,"to":S,"amount":I},...]}`.
//!
//! The encoder and the decoder are both verified against the same
//! character-level description, and decoding an encoded payload is
//! proved to give the payload back.
use crate::errors::ChainError;
use vstd::prelude::*;

verus! {

/// The abstract value of a [`Transaction`].
pub ghost struct TxModel {
    pub from: Seq<char>,
    pub to: Seq<char>,
    pub amount: i32,
}

/// One transfer: sender, receiver, and an amount. Nothing is validated.
#[derive(Debug)]
pub struct Transaction {
    pub from: String,
    pub to: String,
    pub amount: i32,
}

impl View for Transaction {
    type V = TxModel;

    open spec fn view(&self) -> TxModel {
        TxModel { from: self.from@, to: self.to@, amount: self.amount }
    }
}

impl Clone for Transaction {
    fn clone(&self) -> (r: Transaction)
        ensures
            r == *self,
    {
        Transaction { from: self.from.clone(), to: self.to.clone(), amount: self.amount }
    }
}

/// The abstract value of a [`BlockPayload`].
pub ghost struct PayloadModel {
    pub proof_of_work: u64,
    pub transactions: Seq<TxModel>,
}

/// The abstract values of a sequence of transactions.
pub open spec fn txs_view(s: Seq<Transaction>) -> Seq<TxModel> {
    s.map_values(|t: Transaction| t@)
}

/// What a block's payload string carries: the proof that sealed the
/// block and the transactions it confirmed.
#[derive(Debug)]
pub struct BlockPayload {
    pub proof_of_work: u64,
    pub transactions: Vec<Transaction>,
}

impl View for BlockPayload {
    type V = PayloadModel;

    open spec fn view(&self) -> PayloadModel {
        PayloadModel {
            proof_of_work: self.proof_of_work,
            transactions: txs_view(self.transactions@),
        }
    }
}

// ---------------------------------------------------------------------
// The canonical text, character by character.
// ---------------------------------------------------------------------
/// The character for one decimal digit.
pub open spec fn digit_char(d: int) -> char
    recommends
        0 <= d < 10,
{
    if d == 0 {
        '0'
    } else if d == 1 {
        '1'
    } else if d == 2 {
        '2'
    } else if d == 3 {
        '3'
    } else if d == 4 {
        '4'
    } else if d == 5 {
        '5'
    } else if d == 6 {
        '6'
    } else if d == 7 {
        '7'
    } else if d == 8 {
        '8'
    } else {
        '9'
    }
}

pub open spec fn is_digit(c: char) -> bool {
    c == '0' || c == '1' || c == '2' || c == '3' || c == '4' || c == '5' || c == '6' || c == '7'
        || c == '8' || c == '9'
}

/// The value of one decimal digit character.
pub open spec fn digit_val(c: char) -> int
    recommends
        is_digit(c),
{
    if c == '0' {
        0
    } else if c == '1' {
        1
    } else if c == '2' {
        2
    } else if c == '3' {
        3
    } else if c == '4' {
        4
    } else if c == '5' {
        5
    } else if c == '6' {
        6
    } else if c == '7' {
        7
    } else if c == '8' {
        8
    } else {
        9
    }
}

/// The decimal digits of `n`, most significant first, no leading zero.
pub open spec fn dec_digits(n: nat) -> Seq<char>
    decreases n,
{
    if n < 10 {
        seq![digit_char(n as int)]
    } else {
        dec_digits(n / 10).push(digit_char((n % 10) as int))
    }
}

/// The decimal form of a signed value: a minus sign for negatives.
pub open spec fn int_digits(a: int) -> Seq<char> {
    if a < 0 {
        seq!['-'] + dec_digits((-a) as nat)
    } else {
        dec_digits(a as nat)
    }
}

/// How one character stands inside a quoted string: quote and backslash
/// are escaped with a backslash, everything else stands as itself.
pub open spec fn escape_char(c: char) -> Seq<char> {
    if c == '"' {
        seq!['\\', '"']
    } else if c == '\\' {
        seq!['\\', '\\']
    } else {
        seq![c]
    }
}

/// A whole string escaped for quoting.
pub open spec fn escape_seq(s: Seq<char>) -> Seq<char>
    decreases s.len(),
{
    if s.len() == 0 {
        Seq::empty()
    } else {
        escape_char(s[0]) + escape_seq(s.subrange(1, s.len() as int))
    }
}

pub open spec fn lit_from() -> Seq<char> {
    seq!['{', '"', 'f', 'r', 'o', 'm', '"', ':', '"']
}

pub open spec fn lit_to() -> Seq<char> {
    seq![',', '"', 't', 'o', '"', ':', '"']
}

pub open spec fn lit_amount() -> Seq<char> {
    seq![',', '"', 'a', 'm', 'o', 'u', 'n', 't', '"', ':']
}

pub open spec fn lit_pow() -> Seq<char> {
    seq!['{', '"', 'p', 'r', 'o', 'o', 'f', '_', 'o', 'f', '_', 'w', 'o', 'r', 'k', '"', ':']
}

pub open spec fn lit_txs() -> Seq<char> {
    seq![',', '"', 't', 'r', 'a', 'n', 's', 'a', 'c', 't', 'i', 'o', 'n', 's', '"', ':', '[']
}

/// The canonical text of one transaction.
pub open spec fn tx_json(t: TxModel) -> Seq<char> {
    lit_from() + escape_seq(t.from) + seq!['"'] + lit_to() + escape_seq(t.to) + seq!['"']
        + lit_amount() + int_digits(t.amount as int) + seq!['}']
}

/// The canonical text of a transaction list's elements, comma separated.
pub open spec fn txs_json(ts: Seq<TxModel>) -> Seq<char>
    decreases ts.len(),
{
    if ts.len() == 0 {
        Seq::empty()
    } else if ts.len() == 1 {
        tx_json(ts[0])
    } else {
        tx_json(ts[0]) + seq![','] + txs_json(ts.subrange(1, ts.len() as int))
    }
}

/// The canonical text of a whole payload.
pub open spec fn payload_json(p: PayloadModel) -> Seq<char> {
    lit_pow() + dec_digits(p.proof_of_work as nat) + lit_txs() + txs_json(p.transactions) + seq![
        ']',
        '}',
    ]
}

// ---------------------------------------------------------------------
// The encoder.
// ---------------------------------------------------------------------
/// Relies on `String: FromIterator<char>`: collecting characters yields
/// the string made of exactly those characters in order.
#[verifier::external_body]
fn chars_to_string(v: &Vec<char>) -> (r: String)
    ensures
        r@ == v@,
{
    v.iter().collect()
}

fn push_digit(v: &mut Vec<char>, d: u64)
    requires
        d < 10,
    ensures
        final(v)@ == old(v)@.push(digit_char(d as int)),
{
    if d == 0 {
        v.push('0')
    } else if d == 1 {
        v.push('1')
    } else if d == 2 {
        v.push('2')
    } else if d == 3 {
        v.push('3')
    } else if d == 4 {
        v.push('4')
    } else if d == 5 {
        v.push('5')
    } else if d == 6 {
        v.push('6')
    } else if d == 7 {
        v.push('7')
    } else if d == 8 {
        v.push('8')
    } else {
        v.push('9')
    }
}

fn push_u64_dec(v: &mut Vec<char>, n: u64)
    ensures
        final(v)@ == old(v)@ + dec_digits(n as nat),
    decreases n,
{
    if n < 10 {
        push_digit(v, n);
        assert(v@ =~= old(v)@ + dec_digits(n as nat));
    } else {
        push_u64_dec(v, n / 10);
        push_digit(v, n % 10);
        assert(v@ =~= old(v)@ + dec_digits(n as nat));
    }
}

fn push_i32_dec(v: &mut Vec<char>, a: i32)
    ensures
        final(v)@ == old(v)@ + int_digits(a as int),
{
    if a < 0 {
        v.push('-');
        let m: u64 = (-(a as i64)) as u64;
        assert(m as nat == (-(a as int)) as nat);
        push_u64_dec(v, m);
        assert(v@ =~= old(v)@ + int_digits(a as int));
    } else {
        push_u64_dec(v, a as u64);
        assert(v@ =~= old(v)@ + int_digits(a as int));
    }
}

/// Escaping distributes over extending the string by one character.
proof fn lemma_escape_snoc(s: Seq<char>, c: char)
    ensures
        escape_seq(s.push(c)) == escape_seq(s) + escape_char(c),
    decreases s.len(),
{
    let e = s.push(c);
    if s.len() == 0 {
        assert(e[0] == c);
        assert(e.subrange(1, e.len() as int) =~= Seq::<char>::empty());
        assert(escape_seq(e.subrange(1, e.len() as int)) =~= Seq::<char>::empty());
        assert(escape_seq(e) == escape_char(c) + escape_seq(e.subrange(1, e.len() as int)));
        assert(escape_seq(s.push(c)) =~= escape_seq(s) + escape_char(c));
    } else {
        assert(e[0] == s[0]);
        assert(e.subrange(1, e.len() as int) =~= s.subrange(1, s.len() as int).push(c));
        lemma_escape_snoc(s.subrange(1, s.len() as int), c);
        assert(escape_seq(s.push(c)) =~= escape_seq(s) + escape_char(c));
    }
}

fn push_str_escaped(v: &mut Vec<char>, s: &str)
    ensures
        final(v)@ == old(v)@ + escape_seq(s@),
{
    let n = s.unicode_len();
    let mut i: usize = 0;
    assert(v@ =~= old(v)@ + escape_seq(s@.take(0)));
    while i < n
        invariant
            i <= n,
            n == s@.len(),
            v@ == old(v)@ + escape_seq(s@.take(i as int)),
        decreases n - i,
    {
        let c = s.get_char(i);
        if c == '"' {
            v.push('\\');
            v.push('"');
        } else if c == '\\' {
            v.push('\\');
            v.push('\\');
        } else {
            v.push(c);
        }
        proof {
            lemma_escape_snoc(s@.take(i as int), c);
            assert(s@.take(i + 1) =~= s@.take(i as int).push(c));
            assert(v@ =~= old(v)@ + escape_seq(s@.take(i + 1)));
        }
        i = i + 1;
    }
    assert(s@.take(n as int) =~= s@);
}

#[verifier::rlimit(50)]
fn push_tx(v: &mut Vec<char>, t: &Transaction)
    ensures
        final(v)@ == old(v)@ + tx_json(t@),
{
    v.push('{');
    v.push('"');
    v.push('f');
    v.push('r');
    v.push('o');
    v.push('m');
    v.push('"');
    v.push(':');
    v.push('"');
    assert(v@ =~= old(v)@ + lit_from());
    push_str_escaped(v, self_str(&t.from));
    v.push('"');
    v.push(',');
    v.push('"');
    v.push('t');
    v.push('o');
    v.push('"');
    v.push(':');
    v.push('"');
    assert(v@ =~= old(v)@ + lit_from() + escape_seq(t.from@) + seq!['"'] + lit_to());
    push_str_escaped(v, self_str(&t.to));
    v.push('"');
    v.push(',');
    v.push('"');
    v.push('a');
    v.push('m');
    v.push('o');
    v.push('u');
    v.push('n');
    v.push('t');
    v.push('"');
    v.push(':');
    push_i32_dec(v, t.amount);
    v.push('}');
    assert(v@ =~= old(v)@ + tx_json(t@));
}

/// A borrowed view of a string's characters.
fn self_str(s: &String) -> (r: &str)
    ensures
        r@ == s@,
{
    s.as_str()
}

/// A list's text grows at its end when the list does.
proof fn lemma_txs_json_snoc(ts: Seq<TxModel>, t: TxModel)
    ensures
        ts.len() == 0 ==> txs_json(ts.push(t)) == tx_json(t),
        ts.len() > 0 ==> txs_json(ts.push(t)) == txs_json(ts) + seq![','] + tx_json(t),
    decreases ts.len(),
{
    let e = ts.push(t);
    if ts.len() == 0 {
        assert(e[0] == t);
        assert(txs_json(ts.push(t)) =~= tx_json(t));
    } else if ts.len() == 1 {
        assert(e.subrange(1, e.len() as int) =~= seq![t]);
        assert(txs_json(seq![t]) == tx_json(seq![t][0]));
        assert(seq![t][0] == t);
        assert(txs_json(ts.push(t)) =~= txs_json(ts) + seq![','] + tx_json(t));
    } else {
        assert(e[0] == ts[0]);
        assert(e.subrange(1, e.len() as int) =~= ts.subrange(1, ts.len() as int).push(t));
        lemma_txs_json_snoc(ts.subrange(1, ts.len() as int), t);
        assert(txs_json(ts.push(t)) =~= txs_json(ts) + seq![','] + tx_json(t));
    }
}

/// Renders a payload in its canonical textual form.
pub fn encode_payload(p: &BlockPayload) -> (r: String)
    ensures
        r@ == payload_json(p@),
{
    let mut v: Vec<char> = Vec::new();
    v.push('{');
    v.push('"');
    v.push('p');
    v.push('r');
    v.push('o');
    v.push('o');
    v.push('f');
    v.push('_');
    v.push('o');
    v.push('f');
    v.push('_');
    v.push('w');
    v.push('o');
    v.push('r');
    v.push('k');
    v.push('"');
    v.push(':');
    assert(v@ =~= lit_pow());
    push_u64_dec(&mut v, p.proof_of_work);
    v.push(',');
    v.push('"');
    v.push('t');
    v.push('r');
    v.push('a');
    v.push('n');
    v.push('s');
    v.push('a');
    v.push('c');
    v.push('t');
    v.push('i');
    v.push('o');
    v.push('n');
    v.push('s');
    v.push('"');
    v.push(':');
    v.push('[');
    let ghost head = lit_pow() + dec_digits(p.proof_of_work as nat) + lit_txs();
    assert(v@ =~= head);
    let mut k: usize = 0;
    let n = p.transactions.len();
    assert(txs_view(p.transactions@).take(0) =~= Seq::<TxModel>::empty());
    while k < n
        invariant
            k <= n,
            n == p.transactions@.len(),
            v@ == head + txs_json(txs_view(p.transactions@).take(k as int)),
        decreases n - k,
    {
        if k > 0 {
            v.push(',');
        }
        push_tx(&mut v, &p.transactions[k]);
        proof {
            let ts = txs_view(p.transactions@);
            lemma_txs_json_snoc(ts.take(k as int), p.transactions@[k as int]@);
            assert(ts.take(k + 1) =~= ts.take(k as int).push(p.transactions@[k as int]@));
            assert(v@ =~= head + txs_json(ts.take(k + 1)));
        }
        k = k + 1;
    }
    assert(txs_view(p.transactions@).take(n as int) =~= txs_view(p.transactions@));
    v.push(']');
    v.push('}');
    assert(v@ =~= payload_json(p@));
    chars_to_string(&v)
}

// ---------------------------------------------------------------------
// The decoder, described first at the specification level: a cursor
// parser over the character sequence. Each executable piece returns
// exactly what its specification counterpart says.
// ---------------------------------------------------------------------
/// The cursor after a fixed piece of text, when that piece stands at `i`.
pub open spec fn expect_at(s: Seq<char>, i: int, lit: Seq<char>) -> Option<int> {
    if 0 <= i && i + lit.len() <= s.len() && s.subrange(i, i + lit.len() as int) == lit {
        Some(i + lit.len())
    } else {
        None
    }
}

/// Consumes decimal digits, accumulating their value; stops at the first
/// non-digit; refuses a value beyond `u64::MAX`.
pub open spec fn parse_digits_loop(s: Seq<char>, i: int, acc: u64) -> Option<(u64, int)>
    decreases s.len() - i,
        when 0 <= i <= s.len()
{
    if i < s.len() && is_digit(s[i]) {
        if (acc as int) * 10 + digit_val(s[i]) > u64::MAX as int {
            None
        } else {
            parse_digits_loop(s, i + 1, ((acc as int) * 10 + digit_val(s[i])) as u64)
        }
    } else {
        Some((acc, i))
    }
}

/// An unsigned decimal number: at least one digit.
pub open spec fn parse_u64_at(s: Seq<char>, i: int) -> Option<(u64, int)> {
    if 0 <= i && i < s.len() && is_digit(s[i]) {
        parse_digits_loop(s, i, 0)
    } else {
        None
    }
}

/// The rest of a quoted string, up to and over its closing quote,
/// undoing the escapes.
pub open spec fn parse_string_at(s: Seq<char>, i: int) -> Option<(Seq<char>, int)>
    decreases s.len() - i,
        when 0 <= i <= s.len()
{
    if i >= s.len() {
        None
    } else if s[i] == '"' {
        Some((Seq::empty(), i + 1))
    } else if s[i] == '\\' {
        if i + 1 < s.len() && (s[i + 1] == '"' || s[i + 1] == '\\') {
            match parse_string_at(s, i + 2) {
                Some(r) => Some((seq![s[i + 1]] + r.0, r.1)),
                None => None,
            }
        } else {
            None
        }
    } else {
        match parse_string_at(s, i + 1) {
            Some(r) => Some((seq![s[i]] + r.0, r.1)),
            None => None,
        }
    }
}

/// A signed decimal number that fits an `i32`.
pub open spec fn parse_i32_at(s: Seq<char>, i: int) -> Option<(i32, int)> {
    if 0 <= i && i < s.len() && s[i] == '-' {
        match parse_u64_at(s, i + 1) {
            Some(r) => if r.0 <= 0x8000_0000u64 {
                Some(((-(r.0 as int)) as i32, r.1))
            } else {
                None
            },
            None => None,
        }
    } else {
        match parse_u64_at(s, i) {
            Some(r) => if r.0 <= 0x7fff_ffffu64 {
                Some((r.0 as i32, r.1))
            } else {
                None
            },
            None => None,
        }
    }
}

/// One transaction object.
pub open spec fn parse_tx_at(s: Seq<char>, i: int) -> Option<(TxModel, int)> {
    match expect_at(s, i, lit_from()) {
        Some(i1) => match parse_string_at(s, i1) {
            Some(f) => match expect_at(s, f.1, lit_to()) {
                Some(i2) => match parse_string_at(s, i2) {
                    Some(t) => match expect_at(s, t.1, lit_amount()) {
                        Some(i3) => match parse_i32_at(s, i3) {
                            Some(a) => match expect_at(s, a.1, seq!['}']) {
                                Some(i4) => Some(
                                    (TxModel { from: f.0, to: t.0, amount: a.0 }, i4),
                                ),
                                None => None,
                            },
                            None => None,
                        },
                        None => None,
                    },
                    None => None,
                },
                None => None,
            },
            None => None,
        },
        None => None,
    }
}

/// After the first transaction of a non-empty list: either the closing
/// bracket, or a comma and one more transaction, and so on.
pub open spec fn parse_txs_rest(s: Seq<char>, i: int, acc: Seq<TxModel>) -> Option<
    (Seq<TxModel>, int),
>
    decreases s.len() - i,
        when 0 <= i <= s.len()
{
    if i >= s.len() {
        None
    } else if s[i] == ']' {
        Some((acc, i + 1))
    } else if s[i] == ',' {
        match parse_tx_at(s, i + 1) {
            Some(r) => if i + 1 < r.1 && r.1 <= s.len() {
                parse_txs_rest(s, r.1, acc.push(r.0))
            } else {
                None
            },
            None => None,
        }
    } else {
        None
    }
}

/// A whole payload: accepts exactly a full, well-shaped text.
pub open spec fn parse_payload(s: Seq<char>) -> Option<PayloadModel> {
    match expect_at(s, 0, lit_pow()) {
        Some(i1) => match parse_u64_at(s, i1) {
            Some(p) => match expect_at(s, p.1, lit_txs()) {
                Some(i2) => if i2 < s.len() && s[i2] == ']' {
                    if i2 + 2 == s.len() && s[i2 + 1] == '}' {
                        Some(PayloadModel { proof_of_work: p.0, transactions: Seq::empty() })
                    } else {
                        None
                    }
                } else {
                    match parse_tx_at(s, i2) {
                        Some(t0) => if i2 < t0.1 && t0.1 <= s.len() {
                            match parse_txs_rest(s, t0.1, seq![t0.0]) {
                                Some(ts) => if ts.1 < s.len() && ts.1 + 1 == s.len() && s[ts.1]
                                    == '}' {
                                    Some(
                                        PayloadModel {
                                            proof_of_work: p.0,
                                            transactions: ts.0,
                                        },
                                    )
                                } else {
                                    None
                                },
                                None => None,
                            }
                        } else {
                            None
                        },
                        None => None,
                    }
                },
                None => None,
            },
            None => None,
        },
        None => None,
    }
}

// ---------------------------------------------------------------------
// Bounds of the cursor: a successful parse lands inside the text.
// ---------------------------------------------------------------------
proof fn lemma_parse_digits_loop_bounds(s: Seq<char>, i: int, acc: u64)
    requires
        0 <= i <= s.len(),
    ensures
        match parse_digits_loop(s, i, acc) {
            Some(r) => i <= r.1 <= s.len(),
            None => true,
        },
    decreases s.len() - i,
{
    if i < s.len() && is_digit(s[i]) {
        if (acc as int) * 10 + digit_val(s[i]) <= u64::MAX as int {
            lemma_parse_digits_loop_bounds(s, i + 1, ((acc as int) * 10 + digit_val(s[i])) as u64);
        }
    }
}

proof fn lemma_parse_u64_bounds(s: Seq<char>, i: int)
    requires
        0 <= i <= s.len(),
    ensures
        match parse_u64_at(s, i) {
            Some(r) => i < r.1 <= s.len(),
            None => true,
        },
{
    if i < s.len() && is_digit(s[i]) {
        lemma_parse_digits_loop_bounds(s, i + 1, digit_val(s[i]) as u64);
    }
}

proof fn lemma_parse_string_bounds(s: Seq<char>, i: int)
    requires
        0 <= i <= s.len(),
    ensures
        match parse_string_at(s, i) {
            Some(r) => i < r.1 <= s.len(),
            None => true,
        },
    decreases s.len() - i,
{
    if i >= s.len() {
    } else if s[i] == '"' {
    } else if s[i] == '\\' {
        if i + 1 < s.len() && (s[i + 1] == '"' || s[i + 1] == '\\') {
            lemma_parse_string_bounds(s, i + 2);
        }
    } else {
        lemma_parse_string_bounds(s, i + 1);
    }
}

proof fn lemma_parse_i32_bounds(s: Seq<char>, i: int)
    requires
        0 <= i <= s.len(),
    ensures
        match parse_i32_at(s, i) {
            Some(r) => i < r.1 <= s.len(),
            None => true,
        },
{
    if i < s.len() && s[i] == '-' {
        lemma_parse_u64_bounds(s, i + 1);
    } else {
        lemma_parse_u64_bounds(s, i);
    }
}

proof fn lemma_parse_tx_bounds(s: Seq<char>, i: int)
    requires
        0 <= i <= s.len(),
    ensures
        match parse_tx_at(s, i) {
            Some(r) => i < r.1 <= s.len(),
            None => true,
        },
{
    match expect_at(s, i, lit_from()) {
        Some(i1) => {
            lemma_parse_string_bounds(s, i1);
            match parse_string_at(s, i1) {
                Some(f) => {
                    match expect_at(s, f.1, lit_to()) {
                        Some(i2) => {
                            lemma_parse_string_bounds(s, i2);
                            match parse_string_at(s, i2) {
                                Some(t) => {
                                    match expect_at(s, t.1, lit_amount()) {
                                        Some(i3) => {
                                            lemma_parse_i32_bounds(s, i3);
                                        },
                                        None => {},
                                    }
                                },
                                None => {},
                            }
                        },
                        None => {},
                    }
                },
                None => {},
            }
        },
        None => {},
    }
}

// ---------------------------------------------------------------------
// The executable decoder.
// ---------------------------------------------------------------------
#[verifier::loop_isolation(false)]
fn ex_expect(v: &Vec<char>, i: usize, lit: &[char]) -> (r: Option<usize>)
    requires
        i <= v@.len(),
    ensures
        match r {
            Some(j) => expect_at(v@, i as int, lit@) == Some(j as int) && j == i + lit@.len() && j
                <= v@.len(),
            None => expect_at(v@, i as int, lit@) is None,
        },
{
    if lit.len() > v.len() - i {
        return None;
    }
    let mut k: usize = 0;
    while k < lit.len()
        invariant
            k <= lit@.len(),
            i + lit@.len() <= v@.len(),
            forall|m: int| 0 <= m < k ==> v@[i + m] == lit@[m],
        decreases lit@.len() - k,
    {
        if v[i + k] != lit[k] {
            proof {
                let sub = v@.subrange(i as int, i + lit@.len() as int);
                assert(sub[k as int] == v@[i + k]);
                assert(sub != lit@);
            }
            return None;
        }
        k = k + 1;
    }
    assert(v@.subrange(i as int, i + lit@.len() as int) =~= lit@);
    Some(i + lit.len())
}

/// The value of a digit character, if it is one.
fn digit_of(c: char) -> (r: Option<u64>)
    ensures
        match r {
            Some(d) => is_digit(c) && d == digit_val(c),
            None => !is_digit(c),
        },
{
    if c == '0' {
        Some(0)
    } else if c == '1' {
        Some(1)
    } else if c == '2' {
        Some(2)
    } else if c == '3' {
        Some(3)
    } else if c == '4' {
        Some(4)
    } else if c == '5' {
        Some(5)
    } else if c == '6' {
        Some(6)
    } else if c == '7' {
        Some(7)
    } else if c == '8' {
        Some(8)
    } else if c == '9' {
        Some(9)
    } else {
        None
    }
}

fn ex_parse_u64(v: &Vec<char>, i: usize) -> (r: Option<(u64, usize)>)
    requires
        i <= v@.len(),
    ensures
        match r {
            Some(p) => parse_u64_at(v@, i as int) == Some((p.0, p.1 as int)) && i < p.1 <= v@.len(),
            None => parse_u64_at(v@, i as int) is None,
        },
{
    if i >= v.len() {
        return None;
    }
    match digit_of(v[i]) {
        None => {
            return None;
        },
        Some(_) => {},
    }
    let mut acc: u64 = 0;
    let mut j: usize = i;
    loop
        invariant
            i <= j <= v@.len(),
            parse_u64_at(v@, i as int) == parse_digits_loop(v@, j as int, acc),
        decreases v@.len() - j,
    {
        if j >= v.len() {
            proof {
                lemma_parse_u64_bounds(v@, i as int);
            }
            return Some((acc, j));
        }
        match digit_of(v[j]) {
            Some(d) => {
                if acc > 1844674407370955161u64 || (acc == 1844674407370955161u64 && d > 5) {
                    assert((acc as int) * 10 + digit_val(v@[j as int]) > u64::MAX as int);
                    return None;
                }
                assert((acc as int) * 10 + digit_val(v@[j as int]) <= u64::MAX as int);
                acc = acc * 10 + d;
                j = j + 1;
            },
            None => {
                proof {
                    lemma_parse_u64_bounds(v@, i as int);
                }
                return Some((acc, j));
            },
        }
    }
}

fn ex_parse_string(v: &Vec<char>, i: usize) -> (r: Option<(Vec<char>, usize)>)
    requires
        i <= v@.len(),
    ensures
        match r {
            Some(p) => parse_string_at(v@, i as int) == Some((p.0@, p.1 as int)) && i < p.1
                <= v@.len(),
            None => parse_string_at(v@, i as int) is None,
        },
{
    let mut acc: Vec<char> = Vec::new();
    let mut j: usize = i;
    proof {
        lemma_parse_string_bounds(v@, i as int);
    }
    loop
        invariant
            i <= j <= v@.len(),
            (match parse_string_at(v@, j as int) {
                Some(q) => parse_string_at(v@, i as int) == Some((acc@ + q.0, q.1)),
                None => parse_string_at(v@, i as int) is None,
            }),
            match parse_string_at(v@, i as int) {
                Some(q) => i < q.1 <= v@.len(),
                None => true,
            },
        decreases v@.len() - j,
    {
        if j >= v.len() {
            return None;
        }
        let c = v[j];
        if c == '"' {
            assert(acc@ + Seq::<char>::empty() =~= acc@);
            return Some((acc, j + 1));
        } else if c == '\\' {
            if j + 1 < v.len() && (v[j + 1] == '"' || v[j + 1] == '\\') {
                let c2 = v[j + 1];
                proof {
                    let old_acc = acc@;
                    match parse_string_at(v@, j + 2) {
                        Some(q) => {
                            assert(old_acc + (seq![c2] + q.0) =~= old_acc.push(c2) + q.0);
                        },
                        None => {},
                    }
                }
                acc.push(c2);
                j = j + 2;
            } else {
                return None;
            }
        } else {
            proof {
                let old_acc = acc@;
                match parse_string_at(v@, j + 1) {
                    Some(q) => {
                        assert(old_acc + (seq![c] + q.0) =~= old_acc.push(c) + q.0);
                    },
                    None => {},
                }
            }
            acc.push(c);
            j = j + 1;
        }
    }
}

fn ex_parse_i32(v: &Vec<char>, i: usize) -> (r: Option<(i32, usize)>)
    requires
        i <= v@.len(),
    ensures
        match r {
            Some(p) => parse_i32_at(v@, i as int) == Some((p.0, p.1 as int)) && i < p.1 <= v@.len(),
            None => parse_i32_at(v@, i as int) is None,
        },
{
    if i < v.len() && v[i] == '-' {
        match ex_parse_u64(v, i + 1) {
            Some((n, j)) => {
                if n <= 0x8000_0000u64 {
                    let a: i32 = (-(n as i64)) as i32;
                    assert(a as int == -(n as int));
                    Some((a, j))
                } else {
                    None
                }
            },
            None => None,
        }
    } else {
        match ex_parse_u64(v, i) {
            Some((n, j)) => {
                if n <= 0x7fff_ffffu64 {
                    Some((n as i32, j))
                } else {
                    None
                }
            },
            None => None,
        }
    }
}

fn ex_parse_tx(v: &Vec<char>, i: usize) -> (r: Option<(Transaction, usize)>)
    requires
        i <= v@.len(),
    ensures
        match r {
            Some(p) => parse_tx_at(v@, i as int) == Some((p.0@, p.1 as int)) && i < p.1 <= v@.len(),
            None => parse_tx_at(v@, i as int) is None,
        },
{
    let lf: [char; 9] = ['{', '"', 'f', 'r', 'o', 'm', '"', ':', '"'];
    assert(lf@ =~= lit_from());
    let i1 = match ex_expect(v, i, &lf) {
        Some(j) => j,
        None => {
            return None;
        },
    };
    let (from_chars, i2) = match ex_parse_string(v, i1) {
        Some(p) => p,
        None => {
            return None;
        },
    };
    let lt: [char; 7] = [',', '"', 't', 'o', '"', ':', '"'];
    assert(lt@ =~= lit_to());
    let i3 = match ex_expect(v, i2, &lt) {
        Some(j) => j,
        None => {
            return None;
        },
    };
    let (to_chars, i4) = match ex_parse_string(v, i3) {
        Some(p) => p,
        None => {
            return None;
        },
    };
    let la: [char; 10] = [',', '"', 'a', 'm', 'o', 'u', 'n', 't', '"', ':'];
    assert(la@ =~= lit_amount());
    let i5 = match ex_expect(v, i4, &la) {
        Some(j) => j,
        None => {
            return None;
        },
    };
    let (amount, i6) = match ex_parse_i32(v, i5) {
        Some(p) => p,
        None => {
            return None;
        },
    };
    let lc: [char; 1] = ['}'];
    assert(lc@ =~= seq!['}']);
    let i7 = match ex_expect(v, i6, &lc) {
        Some(j) => j,
        None => {
            return None;
        },
    };
    let tx = Transaction {
        from: chars_to_string(&from_chars),
        to: chars_to_string(&to_chars),
        amount,
    };
    Some((tx, i7))
}

fn ex_parse_txs_rest(v: &Vec<char>, i: usize, acc: Vec<Transaction>) -> (r: Option<
    (Vec<Transaction>, usize),
>)
    requires
        i <= v@.len(),
    ensures
        match r {
            Some(p) => parse_txs_rest(v@, i as int, txs_view(acc@)) == Some(
                (txs_view(p.0@), p.1 as int),
            ) && p.1 <= v@.len(),
            None => parse_txs_rest(v@, i as int, txs_view(acc@)) is None,
        },
    decreases v@.len() - i,
{
    if i >= v.len() {
        return None;
    }
    let c = v[i];
    if c == ']' {
        Some((acc, i + 1))
    } else if c == ',' {
        match ex_parse_tx(v, i + 1) {
            Some((t, j)) => {
                let mut acc2 = acc;
                proof {
                    assert(txs_view(acc2@.push(t)) =~= txs_view(acc2@).push(t@));
                }
                acc2.push(t);
                ex_parse_txs_rest(v, j, acc2)
            },
            None => None,
        }
    } else {
        None
    }
}

fn ex_parse_payload(v: &Vec<char>) -> (r: Option<BlockPayload>)
    ensures
        match r {
            Some(p) => parse_payload(v@) == Some(p@),
            None => parse_payload(v@) is None,
        },
{
    let lp: [char; 17] = [
        '{',
        '"',
        'p',
        'r',
        'o',
        'o',
        'f',
        '_',
        'o',
        'f',
        '_',
        'w',
        'o',
        'r',
        'k',
        '"',
        ':',
    ];
    assert(lp@ =~= lit_pow());
    let i1 = match ex_expect(v, 0, &lp) {
        Some(j) => j,
        None => {
            return None;
        },
    };
    let (pw, i2) = match ex_parse_u64(v, i1) {
        Some(p) => p,
        None => {
            return None;
        },
    };
    let lx: [char; 17] = [
        ',',
        '"',
        't',
        'r',
        'a',
        'n',
        's',
        'a',
        'c',
        't',
        'i',
        'o',
        'n',
        's',
        '"',
        ':',
        '[',
    ];
    assert(lx@ =~= lit_txs());
    let i3 = match ex_expect(v, i2, &lx) {
        Some(j) => j,
        None => {
            return None;
        },
    };
    if i3 < v.len() && v[i3] == ']' {
        if v.len() - i3 == 2 && v[i3 + 1] == '}' {
            assert(i3 + 2 == v@.len());
            let p = BlockPayload { proof_of_work: pw, transactions: Vec::new() };
            assert(txs_view(p.transactions@) =~= Seq::<TxModel>::empty());
            Some(p)
        } else {
            None
        }
    } else {
        let (t0, j0) = match ex_parse_tx(v, i3) {
            Some(p) => p,
            None => {
                return None;
            },
        };
        let mut first: Vec<Transaction> = Vec::new();
        proof {
            assert(txs_view(first@.push(t0)) =~= seq![t0@]);
        }
        first.push(t0);
        match ex_parse_txs_rest(v, j0, first) {
            Some((txs, j1)) => {
                if j1 < v.len() && j1 + 1 == v.len() && v[j1] == '}' {
                    Some(BlockPayload { proof_of_work: pw, transactions: txs })
                } else {
                    None
                }
            },
            None => None,
        }
    }
}

/// The characters of a borrowed string, one by one.
fn str_chars(s: &str) -> (v: Vec<char>)
    ensures
        v@ == s@,
{
    let n = s.unicode_len();
    let mut v: Vec<char> = Vec::new();
    let mut i: usize = 0;
    while i < n
        invariant
            i <= n,
            n == s@.len(),
            v@ == s@.take(i as int),
        decreases n - i,
    {
        v.push(s.get_char(i));
        assert(v@ =~= s@.take(i + 1));
        i = i + 1;
    }
    assert(s@.take(n as int) =~= s@);
    v
}

/// Reads a payload back from its textual form. Exactly the texts the
/// cursor parser accepts decode; everything else is corrupt state.
pub fn decode_payload(s: &str) -> (r: Result<BlockPayload, ChainError>)
    ensures
        match r {
            Ok(p) => parse_payload(s@) == Some(p@),
            Err(e) => parse_payload(s@) is None && e == ChainError::CorruptChainState,
        },
{
    let v = str_chars(s);
    match ex_parse_payload(&v) {
        Some(p) => Ok(p),
        None => Err(ChainError::CorruptChainState),
    }
}

/// What a whole string denotes as a signed amount: a signed decimal
/// number filling the string exactly.
pub open spec fn amount_of(s: Seq<char>) -> Option<i32> {
    match parse_i32_at(s, 0) {
        Some(r) => if r.1 == s.len() {
            Some(r.0)
        } else {
            None
        },
        None => None,
    }
}

// ---------------------------------------------------------------------
// The round trip: the parser gives an encoded payload back unchanged.
// ---------------------------------------------------------------------
/// Text standing at a position splits as its two halves, each at its
/// own position.
proof fn lemma_embed_split(s: Seq<char>, i: int, x: Seq<char>, y: Seq<char>)
    requires
        0 <= i,
        i + x.len() + y.len() <= s.len(),
        s.subrange(i, i + x.len() + y.len() as int) == x + y,
    ensures
        s.subrange(i, i + x.len() as int) == x,
        s.subrange(i + x.len(), i + x.len() + y.len() as int) == y,
{
    assert forall|k: int| 0 <= k < x.len() implies s.subrange(i, i + x.len() as int)[k] == x[k] by {
        assert(s.subrange(i, i + x.len() + y.len() as int)[k] == (x + y)[k]);
    }
    assert(s.subrange(i, i + x.len() as int) =~= x);
    assert forall|k: int| 0 <= k < y.len() implies s.subrange(
        i + x.len(),
        i + x.len() + y.len() as int,
    )[k] == y[k] by {
        assert(s.subrange(i, i + x.len() + y.len() as int)[x.len() + k] == (x + y)[x.len() + k]);
        assert((x + y)[x.len() + k] == y[k]);
        assert(s.subrange(i, i + x.len() + y.len() as int)[x.len() + k] == s[i + x.len() + k]);
        assert(s.subrange(i + x.len(), i + x.len() + y.len() as int)[k] == s[i + x.len() + k]);
    }
    assert(s.subrange(i + x.len(), i + x.len() + y.len() as int) =~= y);
}

spec fn all_digits(ds: Seq<char>) -> bool {
    forall|k: int| 0 <= k < ds.len() ==> is_digit(#[trigger] ds[k])
}

/// The value accumulated by reading `ds` after having read `acc`.
spec fn fold_val(acc: int, ds: Seq<char>) -> int
    decreases ds.len(),
{
    if ds.len() == 0 {
        acc
    } else {
        fold_val(acc * 10 + digit_val(ds[0]), ds.subrange(1, ds.len() as int))
    }
}

/// Whether that reading stays within `u64` bounds at every step.
spec fn fold_ok(acc: int, ds: Seq<char>) -> bool
    decreases ds.len(),
{
    if ds.len() == 0 {
        true
    } else {
        acc * 10 + digit_val(ds[0]) <= u64::MAX as int && fold_ok(
            acc * 10 + digit_val(ds[0]),
            ds.subrange(1, ds.len() as int),
        )
    }
}

proof fn lemma_fold_snoc(acc: int, ds: Seq<char>, c: char)
    ensures
        fold_val(acc, ds.push(c)) == fold_val(acc, ds) * 10 + digit_val(c),
        fold_ok(acc, ds.push(c)) == (fold_ok(acc, ds) && fold_val(acc, ds) * 10 + digit_val(c)
            <= u64::MAX as int),
    decreases ds.len(),
{
    let e = ds.push(c);
    if ds.len() == 0 {
        assert(e[0] == c);
        assert(e.subrange(1, e.len() as int) =~= Seq::<char>::empty());
        assert(fold_val(acc, e) == fold_val(acc * 10 + digit_val(c), e.subrange(1, e.len() as int)));
        assert(fold_val(acc * 10 + digit_val(c), e.subrange(1, e.len() as int)) == acc * 10
            + digit_val(c));
        assert(fold_val(acc, ds) == acc);
        assert(fold_ok(acc, e) == (acc * 10 + digit_val(c) <= u64::MAX as int && fold_ok(
            acc * 10 + digit_val(c),
            e.subrange(1, e.len() as int),
        )));
        assert(fold_ok(acc * 10 + digit_val(c), e.subrange(1, e.len() as int)));
        assert(fold_ok(acc, ds));
    } else {
        assert(e[0] == ds[0]);
        let acc2 = acc * 10 + digit_val(ds[0]);
        assert(e.subrange(1, e.len() as int) =~= ds.subrange(1, ds.len() as int).push(c));
        lemma_fold_snoc(acc2, ds.subrange(1, ds.len() as int), c);
        assert(fold_val(acc, e) == fold_val(acc2, e.subrange(1, e.len() as int)));
        assert(fold_val(acc, ds) == fold_val(acc2, ds.subrange(1, ds.len() as int)));
        assert(fold_ok(acc, e) == (acc2 <= u64::MAX as int && fold_ok(
            acc2,
            e.subrange(1, e.len() as int),
        )));
    }
}

/// Reading back the decimal digits of `n` yields `n`, without ever
/// leaving `u64` bounds.
proof fn lemma_dec_digits_fold(n: u64)
    ensures
        all_digits(dec_digits(n as nat)),
        fold_val(0, dec_digits(n as nat)) == n,
        fold_ok(0, dec_digits(n as nat)),
        dec_digits(n as nat).len() >= 1,
    decreases n,
{
    if n < 10 {
        let ds = dec_digits(n as nat);
        assert(ds =~= seq![digit_char(n as int)]);
        assert(is_digit(digit_char(n as int)));
        assert(digit_val(digit_char(n as int)) == n);
        assert(ds.subrange(1, 1) =~= Seq::<char>::empty());
        assert(fold_val(0, ds) == fold_val(0 * 10 + digit_val(ds[0]), ds.subrange(1, 1)));
        assert(fold_val(0 * 10 + digit_val(ds[0]), ds.subrange(1, 1)) == digit_val(ds[0]));
        assert(fold_ok(0, ds) == (0 * 10 + digit_val(ds[0]) <= u64::MAX as int && fold_ok(
            0 * 10 + digit_val(ds[0]),
            ds.subrange(1, 1),
        )));
        assert(fold_ok(0 * 10 + digit_val(ds[0]), ds.subrange(1, 1)));
    } else {
        lemma_dec_digits_fold(n / 10);
        let d = (n % 10) as int;
        let prev = dec_digits((n / 10) as nat);
        assert(is_digit(digit_char(d)));
        assert(digit_val(digit_char(d)) == d);
        lemma_fold_snoc(0, prev, digit_char(d));
        assert(fold_val(0, dec_digits(n as nat)) == (n / 10) * 10 + n % 10);
        assert((n / 10) * 10 + n % 10 == n) by {
            vstd::arithmetic::div_mod::lemma_fundamental_div_mod(n as int, 10);
        }
        let ds = dec_digits(n as nat);
        assert forall|k: int| 0 <= k < ds.len() implies is_digit(#[trigger] ds[k]) by {
            if k < prev.len() {
                assert(ds[k] == prev[k]);
            } else {
                assert(ds[k] == digit_char(d));
            }
        }
    }
}

/// Where the digits of a number stand in a larger text, followed by a
/// non-digit, the digit reader finds exactly that number.
proof fn lemma_parse_digits_embed(s: Seq<char>, i: int, ds: Seq<char>, acc: u64)
    requires
        0 <= i,
        i + ds.len() <= s.len(),
        s.subrange(i, i + ds.len() as int) == ds,
        all_digits(ds),
        fold_ok(acc as int, ds),
        i + ds.len() == s.len() || !is_digit(s[i + ds.len()]),
    ensures
        0 <= fold_val(acc as int, ds) <= u64::MAX as int,
        parse_digits_loop(s, i, acc) == Some(
            ((fold_val(acc as int, ds) as u64), i + ds.len() as int),
        ),
    decreases ds.len(),
{
    if ds.len() == 0 {
        assert(parse_digits_loop(s, i, acc) == Some((acc, i)));
    } else {
        assert(s[i] == ds[0]) by {
            assert(s.subrange(i, i + ds.len() as int)[0] == ds[0]);
        }
        assert(is_digit(s[i]));
        let ds2 = ds.subrange(1, ds.len() as int);
        assert(ds =~= seq![ds[0]] + ds2);
        lemma_embed_split(s, i, seq![ds[0]], ds2);
        let acc2 = ((acc as int) * 10 + digit_val(s[i])) as u64;
        lemma_parse_digits_embed(s, i + 1, ds2, acc2);
    }
}

proof fn lemma_parse_u64_embed(s: Seq<char>, i: int, n: u64)
    requires
        0 <= i,
        i + dec_digits(n as nat).len() <= s.len(),
        s.subrange(i, i + dec_digits(n as nat).len() as int) == dec_digits(n as nat),
        i + dec_digits(n as nat).len() == s.len() || !is_digit(s[i + dec_digits(n as nat).len()]),
    ensures
        parse_u64_at(s, i) == Some((n, i + dec_digits(n as nat).len() as int)),
{
    let ds = dec_digits(n as nat);
    lemma_dec_digits_fold(n);
    assert(s[i] == ds[0]) by {
        assert(s.subrange(i, i + ds.len() as int)[0] == ds[0]);
    }
    lemma_parse_digits_embed(s, i, ds, 0);
}

proof fn lemma_parse_i32_embed(s: Seq<char>, i: int, a: i32)
    requires
        0 <= i,
        i + int_digits(a as int).len() <= s.len(),
        s.subrange(i, i + int_digits(a as int).len() as int) == int_digits(a as int),
        i + int_digits(a as int).len() == s.len() || !is_digit(s[i + int_digits(a as int).len()]),
    ensures
        parse_i32_at(s, i) == Some((a, i + int_digits(a as int).len() as int)),
{
    let dg = int_digits(a as int);
    if a < 0 {
        let n = (-(a as int)) as u64;
        let ds = dec_digits(n as nat);
        assert(dg == seq!['-'] + ds);
        lemma_embed_split(s, i, seq!['-'], ds);
        assert(s[i] == '-') by {
            assert(s.subrange(i, i + 1)[0] == seq!['-'][0]);
        }
        lemma_parse_u64_embed(s, i + 1, n);
        assert(n <= 0x8000_0000u64);
        assert((-(n as int)) as i32 == a);
    } else {
        let n = a as u64;
        assert(dg == dec_digits(n as nat));
        lemma_dec_digits_fold(n);
        assert(s[i] == dg[0]) by {
            assert(s.subrange(i, i + dg.len() as int)[0] == dg[0]);
        }
        assert(is_digit(s[i]));
        assert(s[i] != '-');
        lemma_parse_u64_embed(s, i, n);
        assert(n <= 0x7fff_ffffu64);
    }
}

/// Where an escaped string stands in a larger text with its closing
/// quote after it, the string reader recovers the original characters.
proof fn lemma_parse_string_embed(s: Seq<char>, i: int, t: Seq<char>)
    requires
        0 <= i,
        i + escape_seq(t).len() + 1 <= s.len(),
        s.subrange(i, i + escape_seq(t).len() as int) == escape_seq(t),
        s[i + escape_seq(t).len()] == '"',
    ensures
        parse_string_at(s, i) == Some((t, i + escape_seq(t).len() + 1)),
    decreases t.len(),
{
    let e = escape_seq(t);
    if t.len() == 0 {
        assert(s[i] == '"');
    } else {
        let c = t[0];
        let t2 = t.subrange(1, t.len() as int);
        let e2 = escape_seq(t2);
        let ec = escape_char(c);
        assert(e == ec + e2);
        lemma_embed_split(s, i, ec, e2);
        if c == '"' || c == '\\' {
            assert(ec =~= seq!['\\', c]);
            assert(s[i] == '\\') by {
                assert(s.subrange(i, i + ec.len() as int)[0] == ec[0]);
            }
            assert(s[i + 1] == c) by {
                assert(s.subrange(i, i + ec.len() as int)[1] == ec[1]);
            }
            lemma_parse_string_embed(s, i + 2, t2);
            assert(seq![c] + t2 =~= t);
        } else {
            assert(ec =~= seq![c]);
            assert(s[i] == c) by {
                assert(s.subrange(i, i + ec.len() as int)[0] == ec[0]);
            }
            assert(s[i] != '"' && s[i] != '\\');
            lemma_parse_string_embed(s, i + 1, t2);
            assert(seq![c] + t2 =~= t);
        }
    }
}

proof fn lemma_tx_json_len(t: TxModel)
    ensures
        tx_json(t).len() >= 28,
{
}

proof fn lemma_tx_json_first(t: TxModel)
    ensures
        tx_json(t)[0] == '{',
{
    let tj = tx_json(t);
    let r1 = escape_seq(t.from) + (seq!['"'] + (lit_to() + (escape_seq(t.to) + (seq!['"'] + (
    lit_amount() + (int_digits(t.amount as int) + seq!['}']))))));
    assert(tj =~= lit_from() + r1);
    assert((lit_from() + r1)[0] == lit_from()[0]);
}

/// Where one transaction's text stands in a larger text, the
/// transaction reader recovers exactly that transaction.
#[verifier::rlimit(100)]
proof fn lemma_parse_tx_embed(s: Seq<char>, i: int, t: TxModel)
    requires
        0 <= i,
        i + tx_json(t).len() <= s.len(),
        s.subrange(i, i + tx_json(t).len() as int) == tx_json(t),
    ensures
        parse_tx_at(s, i) == Some((t, i + tx_json(t).len() as int)),
{
    let tj = tx_json(t);
    let ef = escape_seq(t.from);
    let et = escape_seq(t.to);
    let dg = int_digits(t.amount as int);
    let r7 = dg + seq!['}'];
    let r6 = lit_amount() + r7;
    let r5 = seq!['"'] + r6;
    let r4 = et + r5;
    let r3 = lit_to() + r4;
    let r2 = seq!['"'] + r3;
    let r1 = ef + r2;
    let a1 = i + 9;
    let a2 = a1 + ef.len();
    let a3 = a2 + 1;
    let a4 = a3 + 7;
    let a5 = a4 + et.len();
    let a6 = a5 + 1;
    let a7 = a6 + 10;
    let a8 = a7 + dg.len();
    assert(tj =~= lit_from() + r1);
    assert(s.subrange(i, i + tj.len() as int) == lit_from() + r1);
    lemma_embed_split(s, i, lit_from(), r1);
    lemma_embed_split(s, a1, ef, r2);
    lemma_embed_split(s, a2, seq!['"'], r3);
    lemma_embed_split(s, a3, lit_to(), r4);
    lemma_embed_split(s, a4, et, r5);
    lemma_embed_split(s, a5, seq!['"'], r6);
    lemma_embed_split(s, a6, lit_amount(), r7);
    lemma_embed_split(s, a7, dg, seq!['}']);
    assert(expect_at(s, i, lit_from()) == Some(a1));
    assert(s[a2] == '"') by {
        assert(s.subrange(a2, a2 + 1)[0] == seq!['"'][0]);
    }
    lemma_parse_string_embed(s, a1, t.from);
    assert(parse_string_at(s, a1) == Some((t.from, a3)));
    assert(expect_at(s, a3, lit_to()) == Some(a4));
    assert(s[a5] == '"') by {
        assert(s.subrange(a5, a5 + 1)[0] == seq!['"'][0]);
    }
    lemma_parse_string_embed(s, a4, t.to);
    assert(parse_string_at(s, a4) == Some((t.to, a6)));
    assert(expect_at(s, a6, lit_amount()) == Some(a7));
    assert(s[a8] == '}') by {
        assert(s.subrange(a8, a8 + 1)[0] == seq!['}'][0]);
    }
    assert(!is_digit('}'));
    lemma_parse_i32_embed(s, a7, t.amount);
    assert(parse_i32_at(s, a7) == Some((t.amount, a8)));
    assert(expect_at(s, a8, seq!['}']) == Some(a8 + 1));
    assert(a8 + 1 == i + tj.len());
}

/// The text that closes a transaction list after its first element:
/// each further element behind a comma, then the closing bracket.
spec fn txs_rest_json(rem: Seq<TxModel>) -> Seq<char>
    decreases rem.len(),
{
    if rem.len() == 0 {
        seq![']']
    } else {
        seq![','] + (tx_json(rem[0]) + txs_rest_json(rem.subrange(1, rem.len() as int)))
    }
}

/// Where the tail of a list stands in a larger text, the list reader
/// appends exactly the remaining transactions.
proof fn lemma_parse_txs_rest_embed(s: Seq<char>, i: int, rem: Seq<TxModel>, acc: Seq<TxModel>)
    requires
        0 <= i,
        i + txs_rest_json(rem).len() <= s.len(),
        s.subrange(i, i + txs_rest_json(rem).len() as int) == txs_rest_json(rem),
    ensures
        parse_txs_rest(s, i, acc) == Some((acc + rem, i + txs_rest_json(rem).len() as int)),
    decreases rem.len(),
{
    let rj = txs_rest_json(rem);
    if rem.len() == 0 {
        assert(s[i] == ']') by {
            assert(s.subrange(i, i + rj.len() as int)[0] == rj[0]);
        }
        assert(acc + rem =~= acc);
    } else {
        let t0 = rem[0];
        let rem2 = rem.subrange(1, rem.len() as int);
        let tj = tx_json(t0);
        let rj2 = txs_rest_json(rem2);
        assert(rj == seq![','] + (tj + rj2));
        lemma_embed_split(s, i, seq![','], tj + rj2);
        lemma_embed_split(s, i + 1, tj, rj2);
        assert(s[i] == ',') by {
            assert(s.subrange(i, i + 1)[0] == seq![','][0]);
        }
        assert(s[i] != ']');
        lemma_tx_json_len(t0);
        lemma_parse_tx_embed(s, i + 1, t0);
        let j = i + 1 + tj.len() as int;
        assert(parse_tx_at(s, i + 1) == Some((t0, j)));
        assert(i + 1 < j <= s.len());
        lemma_parse_txs_rest_embed(s, j, rem2, acc.push(t0));
        assert(acc.push(t0) + rem2 =~= acc + rem);
        assert(j + rj2.len() == i + rj.len());
    }
}

/// A whole list's text, bracket included, is its first element's text
/// followed by the tail text.
proof fn lemma_txs_list_decomp(ts: Seq<TxModel>)
    ensures
        ts.len() == 0 ==> txs_json(ts) + seq![']'] =~= seq![']'],
        ts.len() > 0 ==> txs_json(ts) + seq![']'] =~= tx_json(ts[0]) + txs_rest_json(
            ts.subrange(1, ts.len() as int),
        ),
    decreases ts.len(),
{
    if ts.len() == 0 {
    } else if ts.len() == 1 {
        assert(ts.subrange(1, 1) =~= Seq::<TxModel>::empty());
        assert(txs_rest_json(ts.subrange(1, 1)) =~= seq![']']);
        assert(txs_json(ts) == tx_json(ts[0]));
        assert(txs_json(ts) + seq![']'] =~= tx_json(ts[0]) + txs_rest_json(
            ts.subrange(1, ts.len() as int),
        ));
    } else {
        let ts2 = ts.subrange(1, ts.len() as int);
        lemma_txs_list_decomp(ts2);
        assert(ts2[0] == ts[1]);
        assert(ts2.subrange(1, ts2.len() as int) =~= ts.subrange(2, ts.len() as int));
        assert(txs_json(ts) == tx_json(ts[0]) + seq![','] + txs_json(ts2));
        assert(txs_rest_json(ts2) == seq![','] + (tx_json(ts2[0]) + txs_rest_json(
            ts2.subrange(1, ts2.len() as int),
        )));
        assert(txs_json(ts2) + seq![']'] =~= tx_json(ts2[0]) + txs_rest_json(
            ts2.subrange(1, ts2.len() as int),
        ));
        assert(txs_json(ts) + seq![']'] =~= tx_json(ts[0]) + txs_rest_json(
            ts.subrange(1, ts.len() as int),
        ));
    }
}

/// Decoding an encoded payload gives the payload back: the canonical
/// text determines its content completely.
#[verifier::rlimit(100)]
#[verifier::spinoff_prover]
pub proof fn lemma_payload_round_trip(m: PayloadModel)
    ensures
        parse_payload(payload_json(m)) == Some(m),
{
    let s = payload_json(m);
    let dd = dec_digits(m.proof_of_work as nat);
    let ts = m.transactions;
    let lj = txs_json(ts);
    let tail = lj + seq![']', '}'];
    let r2 = lit_txs() + tail;
    let r1 = dd + r2;
    let b1: int = 17;
    let b2 = b1 + dd.len() as int;
    let b3 = b2 + 17;
    let b4 = b3 + lj.len() as int;
    assert(s =~= lit_pow() + r1);
    assert(s.subrange(0, s.len() as int) =~= s);
    lemma_embed_split(s, 0, lit_pow(), r1);
    lemma_embed_split(s, b1, dd, r2);
    lemma_embed_split(s, b2, lit_txs(), tail);
    assert(expect_at(s, 0, lit_pow()) == Some(b1));
    lemma_dec_digits_fold(m.proof_of_work);
    assert(s[b2] == ',') by {
        assert(s.subrange(b2, b3)[0] == lit_txs()[0]);
    }
    assert(!is_digit(s[b2]));
    lemma_parse_u64_embed(s, b1, m.proof_of_work);
    assert(parse_u64_at(s, b1) == Some((m.proof_of_work, b2)));
    assert(expect_at(s, b2, lit_txs()) == Some(b3));
    lemma_txs_list_decomp(ts);
    if ts.len() == 0 {
        assert(lj == Seq::<char>::empty());
        assert(tail =~= seq![']', '}']);
        assert(s[b3] == ']') by {
            assert(s.subrange(b3, b3 + 2)[0] == seq![']', '}'][0]);
        }
        assert(s[b3 + 1] == '}') by {
            assert(s.subrange(b3, b3 + 2)[1] == seq![']', '}'][1]);
        }
        assert(b3 + 2 == s.len());
        assert(parse_payload(s) == Some(
            PayloadModel { proof_of_work: m.proof_of_work, transactions: Seq::empty() },
        ));
        assert(Seq::<TxModel>::empty() =~= m.transactions);
        assert(PayloadModel { proof_of_work: m.proof_of_work, transactions: Seq::empty() } == m);
    } else {
        let t0 = ts[0];
        let rem = ts.subrange(1, ts.len() as int);
        let tj = tx_json(t0);
        let rj = txs_rest_json(rem);
        assert(tail =~= (tx_json(ts[0]) + rj) + seq!['}']) by {
            assert(txs_json(ts) + seq![']'] =~= tx_json(ts[0]) + rj);
            assert(tail =~= (txs_json(ts) + seq![']']) + seq!['}']);
        }
        assert(tail =~= tj + (rj + seq!['}']));
        assert(s.subrange(b3, b3 + tail.len() as int) == tj + (rj + seq!['}']));
        lemma_embed_split(s, b3, tj, rj + seq!['}']);
        let j0 = b3 + tj.len() as int;
        lemma_embed_split(s, j0, rj, seq!['}']);
        lemma_tx_json_len(t0);
        lemma_tx_json_first(t0);
        assert(s[b3] == '{') by {
            assert(s.subrange(b3, b3 + tj.len() as int)[0] == tj[0]);
        }
        assert(s[b3] != ']');
        lemma_parse_tx_embed(s, b3, t0);
        assert(parse_tx_at(s, b3) == Some((t0, j0)));
        assert(b3 < j0 <= s.len());
        lemma_parse_txs_rest_embed(s, j0, rem, seq![t0]);
        let k1 = j0 + rj.len() as int;
        assert(parse_txs_rest(s, j0, seq![t0]) == Some((seq![t0] + rem, k1)));
        assert(seq![t0] + rem =~= ts);
        assert(s[k1] == '}') by {
            assert(s.subrange(k1, k1 + 1)[0] == seq!['}'][0]);
        }
        assert(k1 + 1 == s.len());
        assert(parse_payload(s) == Some(
            PayloadModel { proof_of_work: m.proof_of_work, transactions: ts },
        ));
        assert(PayloadModel { proof_of_work: m.proof_of_work, transactions: ts } == m);
    }
}

/// Reads a transaction amount from a request field.
pub fn parse_amount(s: &str) -> (r: Result<i32, ChainError>)
    ensures
        match r {
            Ok(a) => amount_of(s@) == Some(a),
            Err(e) => amount_of(s@) is None && e == ChainError::InvalidParameter,
        },
{
    let v = str_chars(s);
    match ex_parse_i32(&v, 0) {
        Some((a, j)) => {
            if j == v.len() {
                Ok(a)
            } else {
                Err(ChainError::InvalidParameter)
            }
        },
        None => Err(ChainError::InvalidParameter),
    }
}

} // verus!
