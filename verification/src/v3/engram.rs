//! Needle 3 Engram: the n-gram hash memory's addressing.
//!
//! Each table hashes a different n-gram order and hash head. A position's
//! n-gram is only valid once enough tokens exist, and rows fetched before that
//! are masked, so the first positions never pull real rows out of a table on
//! padding.

use vstd::prelude::*;
use crate::v3::config::V3Engram;

verus! {

/// Mixing constants of the hash.
pub const ENGRAM_SEED: u32 = 0x9E37_79B9;

pub const ENGRAM_PRIME: u32 = 0x0100_0193;

/// The low 32 bits of a product.
pub open spec fn product32(a: u32, b: u32) -> u32 {
    ((a * b) % 0x1_0000_0000) as u32
}

/// The token `back` positions before `p`; token 0 before the start.
pub open spec fn token_back(tokens: Seq<u32>, p: int, back: int) -> u32 {
    if back > p {
        0
    } else {
        tokens[p - back]
    }
}

/// Mix the tokens `back`, `back + 1`, .. `order - 1` positions before `p`
/// into `acc`.
pub open spec fn mixed(tokens: Seq<u32>, p: int, back: nat, order: nat, acc: u32) -> u32
    decreases order - back,
{
    if back >= order {
        acc
    } else {
        mixed(
            tokens,
            p,
            back + 1,
            order,
            product32(acc ^ token_back(tokens, p, back as int), ENGRAM_PRIME),
        )
    }
}

/// The table row that the n-gram of `order` ending at `p` hashes to.
pub open spec fn ngram_slot(tokens: Seq<u32>, p: int, order: nat, seed: u32, slots: u32) -> u32 {
    let h = mixed(tokens, p, 0, order, seed);
    (h ^ (h >> 15)) % slots
}

/// Hash heads counted into the seed.
pub open spec fn seed_stride(heads: usize, seed_heads: usize) -> usize {
    if seed_heads == 0 {
        heads
    } else {
        seed_heads
    }
}

/// The seed of order number `oi` and hash head `h`. Only the low word of the
/// table's number counts.
pub open spec fn table_seed(oi: int, h: int, stride: usize) -> u32 {
    product32(ENGRAM_SEED, ((oi * stride + h + 1) % 0x1_0000_0000) as u32)
}

fn seed_of(oi: usize, h: usize, stride: usize) -> (seed: u32)
    ensures
        seed == table_seed(oi as int, h as int, stride),
{
    proof {
        let (a, b, top) = (oi as int, stride as int, u64::MAX as int);
        assert(0 <= a * b <= top * top) by (nonlinear_arith)
            requires
                0 <= a <= top,
                0 <= b <= top,
        ;
        assert(top * top + top + 1 <= u128::MAX);
    }
    let number: u128 = oi as u128 * stride as u128 + h as u128 + 1;
    ENGRAM_SEED.wrapping_mul((number % 0x1_0000_0000) as u32)
}

fn hash_ngram(tokens: &[u32], p: usize, order: usize, seed: u32, slots: u32) -> (slot: u32)
    requires
        p < tokens@.len(),
        slots != 0,
    ensures
        slot == ngram_slot(tokens@, p as int, order as nat, seed, slots),
        slot < slots,
{
    let mut acc: u32 = seed;
    let mut j: usize = 0;
    while j < order
        invariant
            j <= order,
            p < tokens@.len(),
            mixed(tokens@, p as int, j as nat, order as nat, acc) == mixed(
                tokens@,
                p as int,
                0,
                order as nat,
                seed,
            ),
        decreases order - j,
    {
        let tok: u32 = if j > p {
            0
        } else {
            tokens[p - j]
        };
        acc = (acc ^ tok).wrapping_mul(ENGRAM_PRIME);
        j = j + 1;
    }
    acc = acc ^ (acc >> 15);
    acc % slots
}

/// The row that position `p` reads in table `t`: tables are numbered by order
/// first and hash head second.
pub open spec fn table_slot(
    tokens: Seq<u32>,
    orders: Seq<usize>,
    heads: usize,
    stride: usize,
    slots: u32,
    p: int,
    t: int,
) -> u32 {
    let oi = t / heads as int;
    ngram_slot(
        tokens,
        p,
        orders[oi] as nat,
        table_seed(oi, t % heads as int, stride),
        slots,
    )
}

/// The row that every position reads in every table, position by position.
pub open spec fn index_list(
    tokens: Seq<u32>,
    orders: Seq<usize>,
    heads: usize,
    slots: u32,
    seed_heads: usize,
) -> Seq<u32> {
    let tables = orders.len() * heads as nat;
    Seq::new(
        tokens.len() * tables,
        |i: int|
            table_slot(
                tokens,
                orders,
                heads,
                seed_stride(heads, seed_heads),
                slots,
                i / tables as int,
                i % tables as int,
            ),
    )
}

/// Hash every position into one slot per table.
///
/// Returns `(seq, num_tables)` row-major, with table `oi * heads + h` covering
/// n-gram order `orders[oi]` under hash head `h`. Positions before an n-gram
/// is complete still hash, with token 0 for the missing history, and are
/// masked out afterwards by [`ngram_valid`].
pub fn engram_indices(
    tokens: &[u32],
    orders: &[usize],
    heads: usize,
    slots: u32,
    seed_heads: usize,
) -> (out: Vec<u32>)
    requires
        tokens@.len() > 0 && orders@.len() * heads > 0 ==> slots != 0,
        tokens@.len() * (orders@.len() * heads) <= usize::MAX,
        orders@.len() * heads <= usize::MAX,
    ensures
        out@ == index_list(tokens@, orders@, heads, slots, seed_heads),
        forall|i: int| 0 <= i < out@.len() ==> #[trigger] out@[i] < slots,
{
    let stride: usize = if seed_heads == 0 {
        heads
    } else {
        seed_heads
    };
    let tables: usize = orders.len() * heads;
    let mut out: Vec<u32> = Vec::new();
    let mut p: usize = 0;
    proof {
        assert(0 * tables == 0) by (nonlinear_arith);
    }
    while p < tokens.len()
        invariant
            p <= tokens@.len(),
            tables == orders@.len() * heads,
            stride == seed_stride(heads, seed_heads),
            tokens@.len() > 0 && tables > 0 ==> slots != 0,
            out@.len() == p * tables,
            forall|i: int|
                0 <= i < out@.len() ==> out@[i] == table_slot(
                    tokens@,
                    orders@,
                    heads,
                    stride,
                    slots,
                    i / tables as int,
                    i % tables as int,
                ) && out@[i] < slots,
        decreases tokens.len() - p,
    {
        let mut t: usize = 0;
        while t < tables
            invariant
                t <= tables,
                p < tokens@.len(),
                tables == orders@.len() * heads,
                tokens@.len() > 0 && tables > 0 ==> slots != 0,
                out@.len() == p * tables + t,
                forall|i: int|
                    0 <= i < out@.len() ==> out@[i] == table_slot(
                        tokens@,
                        orders@,
                        heads,
                        stride,
                        slots,
                        i / tables as int,
                        i % tables as int,
                    ) && out@[i] < slots,
            decreases tables - t,
        {
            proof {
                lemma_table_of(t as int, orders@.len() as int, heads as int);
                vstd::arithmetic::div_mod::lemma_fundamental_div_mod_converse(
                    out@.len() as int,
                    tables as int,
                    p as int,
                    t as int,
                );
            }
            let oi: usize = t / heads;
            let h: usize = t % heads;
            let seed: u32 = seed_of(oi, h, stride);
            out.push(hash_ngram(tokens, p, orders[oi], seed, slots));
            t = t + 1;
        }
        proof {
            let p1 = p as int + 1;
            let w = tables as int;
            assert(p1 * w == p * w + w) by (nonlinear_arith)
                requires
                    p1 == p + 1,
            ;
        }
        p = p + 1;
    }
    assert(out@ =~= index_list(tokens@, orders@, heads, slots, seed_heads));
    out
}

/// A table number below `orders * heads` splits into an order and a head.
proof fn lemma_table_of(t: int, orders: int, heads: int)
    requires
        0 <= t < orders * heads,
        heads >= 0,
    ensures
        heads > 0,
        0 <= t / heads < orders,
        0 <= t % heads < heads,
{
    if heads == 0 {
        assert(orders * heads == 0) by (nonlinear_arith)
            requires
                heads == 0,
        ;
    }
    vstd::arithmetic::div_mod::lemma_fundamental_div_mod(t, heads);
    vstd::arithmetic::div_mod::lemma_div_pos_is_pos(t, heads);
    let o = t / heads;
    if o >= orders {
        assert(heads * o >= orders * heads) by (nonlinear_arith)
            requires
                o >= orders,
                heads >= 0,
        ;
    }
}

/// `true` where position `p` has enough history for table `t`'s n-gram order.
///
/// Order `o` needs `o` tokens, so it is valid from position `o - 1`.
pub fn ngram_valid(p: usize, table: usize, orders: &[usize], heads: usize) -> (valid: bool)
    requires
        p < usize::MAX,
        heads != 0,
        table / heads < orders@.len(),
    ensures
        valid == (p + 1 >= orders@[(table / heads) as int]),
{
    let order: usize = orders[table / heads];
    p + 1 >= order
}

/// Sizes one Engram site works over.
#[derive(Debug, Clone, Copy, PartialEq, Eq)]
pub struct EngramDims {
    pub num_tables: usize,
    pub slots: usize,
    pub sub_dim: usize,
    pub d_model: usize,
    pub conv_taps: usize,
    pub conv_dilation: usize,
    /// Largest n-gram order: the stride of the tap mask.
    pub max_order: usize,
}

/// The largest n-gram order, 1 when there is none.
pub open spec fn largest_order(orders: Seq<usize>) -> nat
    decreases orders.len(),
{
    if orders.len() == 0 {
        1
    } else if orders.len() == 1 {
        orders[0] as nat
    } else {
        let before = largest_order(orders.drop_last());
        if orders.last() >= before {
            orders.last() as nat
        } else {
            before
        }
    }
}

pub proof fn lemma_largest_order(orders: Seq<usize>)
    ensures
        forall|i: int| 0 <= i < orders.len() ==> orders[i] <= largest_order(orders),
    decreases orders.len(),
{
    if orders.len() > 1 {
        lemma_largest_order(orders.drop_last());
        assert forall|i: int| 0 <= i < orders.len() implies orders[i] <= largest_order(orders) by {
            if i < orders.len() - 1 {
                assert(orders.drop_last()[i] == orders[i]);
            }
        }
    }
}

/// The largest n-gram order, 1 when there is none.
pub fn max_order(orders: &[usize]) -> (m: usize)
    ensures
        m == largest_order(orders@),
{
    if orders.len() == 0 {
        return 1;
    }
    let mut m: usize = orders[0];
    let mut i: usize = 1;
    assert(orders@.take(1).len() == 1);
    while i < orders.len()
        invariant
            1 <= i <= orders@.len(),
            m == largest_order(orders@.take(i as int)),
        decreases orders.len() - i,
    {
        proof {
            assert(orders@.take(i + 1).drop_last() =~= orders@.take(i as int));
            assert(orders@.take(i + 1).last() == orders@[i as int]);
        }
        if orders[i] >= m {
            m = orders[i];
        }
        i = i + 1;
    }
    assert(orders@.take(i as int) =~= orders@);
    m
}

/// The table row to fetch for table `t` at position `pos`, whose n-gram ends
/// at entry `here` of the token history; `None` where the position has too
/// little history and the fetch is masked.
pub open spec fn fetch_row(e: &V3Engram, history: Seq<u32>, here: int, pos: int, t: int) -> Option<
    usize,
> {
    if pos + 1 >= e.orders@[t / e.heads as int] {
        Some(
            (t * e.slots + table_slot(
                history,
                e.orders@,
                e.heads,
                seed_stride(e.heads, e.seed_heads),
                e.slots as u32,
                here,
                t,
            )) as usize,
        )
    } else {
        None
    }
}

/// Rows can be fetched for any token, given as much history as the largest
/// n-gram order reads.
pub open spec fn fetchable(e: &V3Engram) -> bool {
    &&& 0 < e.slots <= u32::MAX
    &&& e.table_count() <= usize::MAX
    &&& e.table_count() * e.slots as nat <= usize::MAX
    &&& largest_order(e.orders@) * e.table_count() <= usize::MAX
}

/// Whether rows can be fetched for any token.
pub fn is_fetchable(e: &V3Engram) -> (yes: bool)
    ensures
        yes == fetchable(e),
{
    let n: usize = e.orders.len();
    let tables: usize = match n.checked_mul(e.heads) {
        Some(t) => t,
        None => {
            return false;
        },
    };
    0 < e.slots && e.slots <= u32::MAX as usize && tables.checked_mul(e.slots).is_some()
        && max_order(&e.orders).checked_mul(tables).is_some()
}

/// The rows to fetch from one site's tables for the last token of `history`,
/// which stands at absolute position `pos`.
///
/// Validity is judged against the absolute position, not against how much
/// history is retained.
pub fn fetch_rows(e: &V3Engram, history: &[u32], pos: usize) -> (rows: Vec<Option<usize>>)
    requires
        history@.len() > 0,
        pos < usize::MAX,
        0 < e.slots <= u32::MAX,
        e.table_count() * e.slots as nat <= usize::MAX,
        history@.len() * e.table_count() <= usize::MAX,
        e.table_count() <= usize::MAX,
    ensures
        rows@ == Seq::new(
            e.table_count(),
            |t: int| fetch_row(e, history@, history@.len() - 1, pos as int, t),
        ),
{
    let here: usize = history.len() - 1;
    let slots: u32 = e.slots as u32;
    let indices = engram_indices(history, &e.orders, e.heads, slots, e.seed_heads);
    let tables: usize = e.num_tables();
    let mut rows: Vec<Option<usize>> = Vec::new();
    let mut t: usize = 0;
    while t < tables
        invariant
            t <= tables,
            tables == e.table_count(),
            here == history@.len() - 1,
            pos < usize::MAX,
            slots == e.slots,
            e.table_count() * e.slots as nat <= usize::MAX,
            indices@.len() == history@.len() * tables,
            forall|i: int|
                0 <= i < indices@.len() ==> indices@[i] == table_slot(
                    history@,
                    e.orders@,
                    e.heads,
                    seed_stride(e.heads, e.seed_heads),
                    slots,
                    i / tables as int,
                    i % tables as int,
                ) && indices@[i] < slots,
            history@.len() * tables <= usize::MAX,
            rows@ == Seq::new(
                t as nat,
                |t: int| fetch_row(e, history@, history@.len() - 1, pos as int, t),
            ),
        decreases tables - t,
    {
        proof {
            lemma_table_of(t as int, e.orders@.len() as int, e.heads as int);
            let w = tables as int;
            let m = history@.len() as int;
            assert(here * w + w == m * w) by (nonlinear_arith)
                requires
                    here == m - 1,
            ;
            assert(here * w >= 0) by (nonlinear_arith)
                requires
                    here >= 0,
                    w >= 0,
            ;
            vstd::arithmetic::div_mod::lemma_fundamental_div_mod_converse(
                here * w + t,
                w,
                here as int,
                t as int,
            );
            let s = e.slots as int;
            assert(0 <= t * s && t * s + s <= w * s) by (nonlinear_arith)
                requires
                    0 <= t,
                    t + 1 <= w,
                    s >= 0,
            ;
        }
        if ngram_valid(pos, t, &e.orders, e.heads) {
            let slot: usize = indices[here * tables + t] as usize;
            rows.push(Some(t * e.slots + slot));
        } else {
            rows.push(None);
        }
        t = t + 1;
        assert(rows@ =~= Seq::new(
            t as nat,
            |t: int| fetch_row(e, history@, history@.len() - 1, pos as int, t),
        ));
    }
    rows
}

/// An n-gram of `order` depends on exactly the last `order` tokens: two
/// positions, in any two sequences, whose last `order` tokens agree hash to
/// the same row.
pub proof fn a_hash_reads_only_its_ngram(
    a: Seq<u32>,
    p: int,
    b: Seq<u32>,
    q: int,
    order: nat,
    seed: u32,
    slots: u32,
)
    requires
        forall|j: int| 0 <= j < order ==> token_back(a, p, j) == token_back(b, q, j),
    ensures
        ngram_slot(a, p, order, seed, slots) == ngram_slot(b, q, order, seed, slots),
{
    lemma_same_mix(a, p, b, q, 0, order, seed);
}

/// A slot depends on its n-gram and its table alone: two positions, in any two
/// sequences, whose last tokens agree as far as the order of table `t` reads,
/// with token 0 before the start, have the same entry for that table.
pub proof fn an_index_depends_on_its_ngram(
    a: Seq<u32>,
    p: int,
    b: Seq<u32>,
    q: int,
    orders: Seq<usize>,
    heads: usize,
    slots: u32,
    seed_heads: usize,
    t: int,
)
    requires
        0 <= p < a.len(),
        0 <= q < b.len(),
        0 <= t < orders.len() * heads,
        forall|j: int|
            0 <= j < orders[t / heads as int] ==> token_back(a, p, j) == token_back(b, q, j),
    ensures
        ({
            let tables = orders.len() * heads;
            &&& 0 <= p * tables + t < index_list(a, orders, heads, slots, seed_heads).len()
            &&& 0 <= q * tables + t < index_list(b, orders, heads, slots, seed_heads).len()
            &&& index_list(a, orders, heads, slots, seed_heads)[p * tables + t] == index_list(
                b,
                orders,
                heads,
                slots,
                seed_heads,
            )[q * tables + t]
        }),
{
    let tables = orders.len() * heads;
    let oi = t / heads as int;
    lemma_entry_of(p, t, a.len() as int, tables);
    lemma_entry_of(q, t, b.len() as int, tables);
    a_hash_reads_only_its_ngram(
        a,
        p,
        b,
        q,
        orders[oi] as nat,
        table_seed(oi, t % heads as int, seed_stride(heads, seed_heads)),
        slots,
    );
}

/// The hash, step by step. `accs` is what the accumulator holds: first the
/// golden-ratio constant times the table's number, then for each token of the
/// n-gram, the latest first, the exclusive or with that token times the FNV
/// prime, all modulo the word. The row is the last of them, with its high bits
/// folded in, modulo the number of slots.
pub proof fn an_index_is_the_fnv_hash_of_its_ngram(
    tokens: Seq<u32>,
    orders: Seq<usize>,
    heads: usize,
    slots: u32,
    seed_heads: usize,
    p: int,
    oi: int,
    h: int,
    accs: Seq<u32>,
)
    requires
        0 <= p < tokens.len(),
        0 <= oi < orders.len(),
        0 <= h < heads,
        accs.len() == orders[oi] + 1,
        accs[0] as int == (2654435769 * ((oi * (if seed_heads == 0 {
            heads as int
        } else {
            seed_heads as int
        }) + h + 1) % 4294967296)) % 4294967296,
        forall|j: int|
            0 <= j < orders[oi] ==> #[trigger] accs[j + 1] as int == (((accs[j] ^ (if j <= p {
                tokens[p - j]
            } else {
                0u32
            })) as int) * 16777619) % 4294967296,
    ensures
        ({
            let out = index_list(tokens, orders, heads, slots, seed_heads);
            let last = accs[orders[oi] as int];
            let at = p * (orders.len() * heads) + (oi * heads + h);
            &&& out.len() == tokens.len() * (orders.len() * heads)
            &&& 0 <= at < out.len()
            &&& out[at] == (last ^ (last / 32768)) % slots
        }),
{
    let tables = orders.len() * heads;
    let t = oi * heads + h;
    assert(0 <= oi * heads && (oi + 1) * heads <= orders.len() * heads) by (nonlinear_arith)
        requires
            0 <= oi,
            oi + 1 <= orders.len(),
            heads >= 0,
    ;
    assert((oi + 1) * heads == oi * heads + heads) by (nonlinear_arith);
    vstd::arithmetic::div_mod::lemma_fundamental_div_mod_converse(t, heads as int, oi, h);
    lemma_entry_of(p, t, tokens.len() as int, tables);
    let order = orders[oi] as nat;
    let stride = seed_stride(heads, seed_heads);
    let seed = table_seed(oi, h, stride);
    assert(accs[0] == seed);
    lemma_trace(tokens, p, order, accs, 0);
    let last = accs[order as int];
    assert(last >> 15 == last / 32768) by (bit_vector);
    assert(mixed(tokens, p, 0, order, seed) == last);
}

proof fn lemma_trace(tokens: Seq<u32>, p: int, order: nat, accs: Seq<u32>, back: nat)
    requires
        back <= order,
        accs.len() == order + 1,
        forall|j: int|
            0 <= j < order ==> #[trigger] accs[j + 1] as int == (((accs[j] ^ (if j <= p {
                tokens[p - j]
            } else {
                0u32
            })) as int) * 16777619) % 4294967296,
    ensures
        mixed(tokens, p, back, order, accs[back as int]) == accs[order as int],
    decreases order - back,
{
    if back < order {
        let j = back as int;
        let x = accs[j] ^ token_back(tokens, p, j);
        assert(accs[j + 1] == product32(x, ENGRAM_PRIME)) by {
            assert(accs[j + 1] as int == (x as int * 16777619) % 4294967296);
        }
        lemma_trace(tokens, p, order, accs, back + 1);
    }
}

/// What is fetched follows the index: table `t` holds its rows behind those of
/// the tables before it, and nothing is fetched where the n-gram would reach
/// back before the first token.
pub proof fn a_fetch_follows_the_index(e: &V3Engram, tokens: Seq<u32>, p: int, oi: int, h: int)
    requires
        0 <= p < tokens.len(),
        0 <= oi < e.orders@.len(),
        0 <= h < e.heads,
        0 < e.slots <= u32::MAX,
        (e.orders@.len() * e.heads) * e.slots <= usize::MAX,
    ensures
        ({
            let t = oi * e.heads + h;
            let tables = e.orders@.len() * e.heads;
            let out = index_list(tokens, e.orders@, e.heads, e.slots as u32, e.seed_heads);
            match fetch_row(e, tokens, p, p, t) {
                Some(row) => e.orders@[oi] <= p + 1 && row == t * e.slots + out[p * tables + t],
                None => e.orders@[oi] > p + 1,
            }
        }),
{
    let heads = e.heads;
    let n = e.orders@.len() as int;
    let tables = n * heads;
    let t = oi * heads + h;
    assert(0 <= oi * heads && (oi + 1) * heads <= n * heads) by (nonlinear_arith)
        requires
            0 <= oi,
            oi + 1 <= n,
            heads >= 0,
    ;
    assert((oi + 1) * heads == oi * heads + heads) by (nonlinear_arith);
    vstd::arithmetic::div_mod::lemma_fundamental_div_mod_converse(t, heads as int, oi, h);
    lemma_entry_of(p, t, tokens.len() as int, tables);
    let out = index_list(tokens, e.orders@, e.heads, e.slots as u32, e.seed_heads);
    let x = out[p * tables + t];
    let s = e.slots as int;
    assert(x < e.slots);
    assert(t * s + s <= tables * s && 0 <= t * s) by (nonlinear_arith)
        requires
            0 <= t,
            t + 1 <= tables,
            s >= 0,
    ;
}

/// Entry `p * tables + t` is that of position `p` and table `t`.
proof fn lemma_entry_of(p: int, t: int, n: int, tables: int)
    requires
        0 <= p < n,
        0 <= t < tables,
    ensures
        0 <= p * tables + t < n * tables,
        (p * tables + t) / tables == p,
        (p * tables + t) % tables == t,
{
    assert(0 <= p * tables && (p + 1) * tables <= n * tables) by (nonlinear_arith)
        requires
            0 <= p,
            p + 1 <= n,
            tables > 0,
    ;
    assert((p + 1) * tables == p * tables + tables) by (nonlinear_arith);
    vstd::arithmetic::div_mod::lemma_fundamental_div_mod_converse(p * tables + t, tables, p, t);
}

/// No seed heads declared counts as many as there are heads.
pub proof fn seed_heads_default_to_the_heads(
    tokens: Seq<u32>,
    orders: Seq<usize>,
    heads: usize,
    slots: u32,
)
    ensures
        index_list(tokens, orders, heads, slots, 0) == index_list(
            tokens,
            orders,
            heads,
            slots,
            heads,
        ),
{
    assert(index_list(tokens, orders, heads, slots, 0) =~= index_list(
        tokens,
        orders,
        heads,
        slots,
        heads,
    ));
}

/// The last `keep` tokens.
pub open spec fn recent(tokens: Seq<u32>, keep: nat) -> Seq<u32> {
    if tokens.len() <= keep {
        tokens
    } else {
        tokens.skip(tokens.len() - keep)
    }
}

/// What is fetched at a position depends on no more than the last `keep`
/// tokens, where `keep` covers every n-gram order.
proof fn lemma_recent_is_enough(e: &V3Engram, tokens: Seq<u32>, p: int, t: int, keep: nat)
    requires
        0 <= p < tokens.len(),
        0 <= t < e.table_count(),
        largest_order(e.orders@) <= keep,
        keep >= 1,
    ensures
        ({
            let history = recent(tokens.take(p + 1), keep);
            fetch_row(e, history, history.len() - 1, p, t) == fetch_row(e, tokens, p, p, t)
        }),
{
    let history = recent(tokens.take(p + 1), keep);
    let here = history.len() - 1;
    lemma_largest_order(e.orders@);
    lemma_table_of(t, e.orders@.len() as int, e.heads as int);
    let oi = t / e.heads as int;
    let order = e.orders@[oi] as nat;
    assert forall|j: int| 0 <= j < order implies token_back(history, here, j) == token_back(
        tokens,
        p,
        j,
    ) by {
        if p + 1 > keep {
            assert(history[here - j] == tokens[p - j]);
        }
    }
    a_hash_reads_only_its_ngram(
        history,
        here,
        tokens,
        p,
        order,
        table_seed(oi, t % e.heads as int, seed_stride(e.heads, e.seed_heads)),
        e.slots as u32,
    );
}

/// A decode step that retains only the longest n-gram fetches the same rows as
/// a pass over the whole sequence does at that position.
pub proof fn stepping_fetches_like_the_whole_sequence(
    e: &V3Engram,
    tokens: Seq<u32>,
    p: int,
    t: int,
)
    requires
        0 <= p < tokens.len(),
        0 <= t < e.table_count(),
        largest_order(e.orders@) >= 1,
    ensures
        ({
            let history = recent(tokens.take(p + 1), largest_order(e.orders@));
            fetch_row(e, history, history.len() - 1, p, t) == fetch_row(e, tokens, p, p, t)
        }),
{
    lemma_recent_is_enough(e, tokens, p, t, largest_order(e.orders@));
}

/// The rows to fetch from one site's tables at position `p` of a sequence.
pub fn sequence_rows(e: &V3Engram, tokens: &[u32], p: usize) -> (rows: Vec<Option<usize>>)
    requires
        fetchable(e),
        p < tokens@.len(),
    ensures
        rows@ == Seq::new(
            e.table_count(),
            |t: int| fetch_row(e, tokens@, p as int, p as int, t),
        ),
{
    let total: usize = tokens.len();
    let longest: usize = max_order(&e.orders);
    let keep: usize = if longest == 0 {
        1
    } else {
        longest
    };
    let start: usize = if p + 1 > keep {
        p + 1 - keep
    } else {
        0
    };
    let mut history: Vec<u32> = Vec::new();
    let mut i: usize = start;
    while i <= p
        invariant
            start <= i <= p + 1,
            p < tokens@.len() == total,
            history@ == tokens@.subrange(start as int, i as int),
        decreases p + 1 - i,
    {
        history.push(tokens[i]);
        i = i + 1;
        assert(history@ =~= tokens@.subrange(start as int, i as int));
    }
    proof {
        assert(history@ =~= recent(tokens@.take(p + 1), keep as nat));
        let n = history@.len() as int;
        let k = e.table_count() as int;
        assert(n * k <= keep * k) by (nonlinear_arith)
            requires
                n <= keep,
                k >= 0,
        ;
        if longest == 0 {
            assert(keep * k == k) by (nonlinear_arith)
                requires
                    keep == 1,
            ;
        }
    }
    let rows = fetch_rows(e, &history, p);
    proof {
        assert forall|t: int| 0 <= t < e.table_count() implies fetch_row(
            e,
            history@,
            history@.len() - 1,
            p as int,
            t,
        ) == fetch_row(e, tokens@, p as int, p as int, t) by {
            lemma_recent_is_enough(e, tokens@, p as int, t, keep as nat);
        }
        assert(rows@ =~= Seq::new(
            e.table_count(),
            |t: int| fetch_row(e, tokens@, p as int, p as int, t),
        ));
    }
    rows
}

proof fn lemma_same_mix(
    a: Seq<u32>,
    p: int,
    b: Seq<u32>,
    q: int,
    back: nat,
    order: nat,
    acc: u32,
)
    requires
        forall|j: int| 0 <= j < order ==> token_back(a, p, j) == token_back(b, q, j),
    ensures
        mixed(a, p, back, order, acc) == mixed(b, q, back, order, acc),
    decreases order - back,
{
    if back < order {
        assert(token_back(a, p, back as int) == token_back(b, q, back as int));
        lemma_same_mix(
            a,
            p,
            b,
            q,
            back + 1,
            order,
            product32(acc ^ token_back(a, p, back as int), ENGRAM_PRIME),
        );
    }
}

/// The largest order is one of the orders, and none is larger; without any it
/// is one.
pub proof fn the_largest_order_is_the_largest(orders: Seq<usize>, i: int)
    requires
        0 <= i < orders.len(),
    ensures
        orders[i] <= largest_order(orders),
        exists|k: int| 0 <= k < orders.len() && #[trigger] orders[k] == largest_order(orders),
        largest_order(Seq::empty()) == 1,
    decreases orders.len(),
{
    let n = orders.len() - 1;
    assert(orders.last() == orders[n]);
    if n > 0 {
        let front = orders.drop_last();
        the_largest_order_is_the_largest(
            front,
            if i < n {
                i
            } else {
                0
            },
        );
        let k = choose|k: int| 0 <= k < front.len() && #[trigger] front[k] == largest_order(front);
        assert(orders[k] == front[k]);
        if i < n {
            assert(front[i] == orders[i]);
        }
        if orders.last() >= largest_order(front) {
            assert(orders[n] == largest_order(orders));
        } else {
            assert(orders[k] == largest_order(orders));
        }
    } else {
        assert(orders[0] == largest_order(orders));
    }
}

/// What is kept of a history is its end: all of it where it is short, and else
/// as much as is to be kept.
pub proof fn what_is_kept_is_the_end(before: Seq<u32>, tokens: Seq<u32>, keep: nat)
    ensures
        tokens.len() == keep ==> recent(before + tokens, keep) == tokens,
        tokens.len() <= keep ==> recent(tokens, keep) == tokens,
{
    if tokens.len() == keep {
        let all = before + tokens;
        assert(all.skip(all.len() - keep) =~= tokens);
        if before.len() == 0 {
            assert(all =~= tokens);
        }
    }
}

} // verus!
