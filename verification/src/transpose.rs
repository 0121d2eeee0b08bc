//! Column transposition: the bytes of a ciphertext dealt out by position
//! modulo the key length, and put back together.

use vstd::prelude::*;
use crate::error::CryptoError;

verus! {

/// How many bytes column `i` holds when `total` bytes are dealt out over
/// `key_length` columns: the bytes at `i`, `i + key_length`, and so on.
pub open spec fn column_len(total: nat, key_length: nat, i: nat) -> nat
    recommends
        key_length > 0,
{
    if i < total {
        ((total - i + key_length - 1) / (key_length as int)) as nat
    } else {
        0
    }
}

/// Column `i` of a ciphertext: every byte whose position is `i` modulo the
/// key length, in the order of the ciphertext.
pub open spec fn column(ciphertext: Seq<u8>, key_length: nat, i: nat) -> Seq<u8>
    recommends
        key_length > 0,
{
    Seq::new(column_len(ciphertext.len(), key_length, i), |j: int| ciphertext[i + j * key_length])
}

/// The columns of a ciphertext, one for each byte of the key.
pub open spec fn columns(ciphertext: Seq<u8>, key_length: nat) -> Seq<Seq<u8>>
    recommends
        key_length > 0,
{
    Seq::new(key_length, |i: int| column(ciphertext, key_length, i as nat))
}

/// Whether columns have the lengths in which `total` bytes are dealt out
/// over them.
pub open spec fn is_column_set(columns: Seq<Seq<u8>>, total: nat) -> bool {
    &&& columns.len() > 0
    &&& forall|i: int|
        0 <= i < columns.len() ==> (#[trigger] columns[i]).len() == column_len(
            total,
            columns.len(),
            i as nat,
        )
}

/// The bytes of the columns taken in turn, one from each column round after
/// round, `total` bytes in all.
pub open spec fn interleaved(columns: Seq<Seq<u8>>, total: nat) -> Seq<u8>
    recommends
        is_column_set(columns, total),
{
    Seq::new(total, |p: int| columns[p % (columns.len() as int)][p / (columns.len() as int)])
}

/// The contents of a vector of buffers.
pub open spec fn contents(buffers: Seq<Vec<u8>>) -> Seq<Seq<u8>> {
    Seq::new(buffers.len(), |i: int| buffers[i]@)
}

/// A column holds `j` bytes or more exactly if the byte at `i + j * key_length`
/// is within the ciphertext.
pub proof fn lemma_column_len(total: nat, key_length: nat, i: nat, j: nat)
    requires
        key_length > 0,
    ensures
        j < column_len(total, key_length, i) <==> i + j * key_length < total,
{
    let l = key_length as int;
    if i < total {
        let x = total - i + l - 1;
        vstd::arithmetic::div_mod::lemma_fundamental_div_mod(x, l);
        vstd::arithmetic::div_mod::lemma_mod_bound(x, l);
        let q = x / l;
        assert(x == l * q + x % l);
        if j < q {
            assert(j * l <= (q - 1) * l) by (nonlinear_arith)
                requires
                    j <= q - 1,
                    l > 0,
            ;
            assert((q - 1) * l == l * q - l) by (nonlinear_arith);
        } else {
            assert(j * l >= q * l) by (nonlinear_arith)
                requires
                    j >= q,
                    l > 0,
            ;
            assert(q * l == l * q) by (nonlinear_arith);
        }
    } else {
        assert(j * l >= 0) by (nonlinear_arith)
            requires
                j >= 0,
                l > 0,
        ;
    }
}

/// Taking the columns of a ciphertext in turn gives the ciphertext back,
/// whatever the key length.
pub proof fn lemma_interleave_columns(ciphertext: Seq<u8>, key_length: nat)
    requires
        key_length > 0,
    ensures
        is_column_set(columns(ciphertext, key_length), ciphertext.len()),
        interleaved(columns(ciphertext, key_length), ciphertext.len()) == ciphertext,
{
    let l = key_length as int;
    let cols = columns(ciphertext, key_length);
    let back = interleaved(cols, ciphertext.len());
    assert forall|p: int| 0 <= p < ciphertext.len() implies back[p] == ciphertext[p] by {
        vstd::arithmetic::div_mod::lemma_fundamental_div_mod(p, l);
        vstd::arithmetic::div_mod::lemma_mod_bound(p, l);
        let i = p % l;
        let j = p / l;
        assert(0 <= j) by (nonlinear_arith)
            requires
                j == p / l,
                p >= 0,
                l > 0,
        ;
        assert(i + j * l == p) by (nonlinear_arith)
            requires
                p == l * j + i,
        ;
        lemma_column_len(ciphertext.len(), key_length, i as nat, j as nat);
        assert(cols[i] == column(ciphertext, key_length, i as nat));
        assert(cols[i][j] == ciphertext[i + j * l]);
    }
    assert(back =~= ciphertext);
}

/// Column `i` of a ciphertext.
fn extract_column(ciphertext: &[u8], key_length: usize, i: usize) -> (col: Vec<u8>)
    requires
        key_length > 0,
    ensures
        col@ == column(ciphertext@, key_length as nat, i as nat),
{
    let n: usize = ciphertext.len();
    let mut col: Vec<u8> = Vec::new();
    if i >= n {
        assert(col@ =~= column(ciphertext@, key_length as nat, i as nat));
        return col;
    }
    let mut p: usize = i;
    assert(col.len() * key_length == 0) by (nonlinear_arith)
        requires
            col.len() == 0,
    ;
    loop
        invariant_except_break
            key_length > 0,
            n == ciphertext@.len(),
            p < n,
            p == i + col.len() * key_length,
            forall|t: int| 0 <= t < col.len() ==> col@[t] == ciphertext@[i + t * key_length],
        ensures
            col@ == column(ciphertext@, key_length as nat, i as nat),
        decreases n - p,
    {
        let ghost j = col.len() as int;
        col.push(ciphertext[p]);
        proof {
            assert((j + 1) * key_length == j * key_length + key_length) by (nonlinear_arith);
        }
        if n - p <= key_length {
            proof {
                lemma_column_len(n as nat, key_length as nat, i as nat, j as nat);
                lemma_column_len(n as nat, key_length as nat, i as nat, (j + 1) as nat);
                assert(col@ =~= column(ciphertext@, key_length as nat, i as nat));
            }
            break ;
        }
        p += key_length;
    }
    col
}

/// Splits a ciphertext into one column for each byte of the key: the byte
/// at position `p` goes to column `p % key_length`, behind the bytes that
/// came before it. No byte is added or dropped. A key length of zero is
/// rejected.
pub fn transpose(ciphertext: &[u8], key_length: usize) -> (out: Result<Vec<Vec<u8>>, CryptoError>)
    ensures
        match out {
            Ok(cols) => key_length >= 1 && cols@.len() == key_length && contents(cols@)
                == columns(ciphertext@, key_length as nat),
            Err(e) => key_length == 0 && e == CryptoError::InvalidInput,
        },
{
    if key_length == 0 {
        return Err(CryptoError::InvalidInput);
    }
    let mut cols: Vec<Vec<u8>> = Vec::new();
    let mut i: usize = 0;
    while i < key_length
        invariant
            key_length > 0,
            i <= key_length,
            cols.len() == i,
            forall|t: int|
                0 <= t < i ==> (#[trigger] cols@[t])@ == column(
                    ciphertext@,
                    key_length as nat,
                    t as nat,
                ),
        decreases key_length - i,
    {
        let col = extract_column(ciphertext, key_length, i);
        cols.push(col);
        i += 1;
    }
    assert(contents(cols@) =~= columns(ciphertext@, key_length as nat));
    Ok(cols)
}

/// How many bytes column `i` holds when `total` bytes are dealt out over
/// `key_length` columns.
pub(crate) fn column_length(total: usize, key_length: usize, i: usize) -> (len: usize)
    requires
        key_length > 0,
    ensures
        len == column_len(total as nat, key_length as nat, i as nat),
{
    if i < total {
        let x: usize = total - i - 1;
        proof {
            vstd::arithmetic::div_mod::lemma_div_plus_one(x as int, key_length as int);
            vstd::arithmetic::div_mod::lemma_div_is_ordered_by_denominator(x as int, 1, key_length as int);
            vstd::arithmetic::div_mod::lemma_div_basics(x as int);
        }
        x / key_length + 1
    } else {
        0
    }
}

/// Puts columns back together: takes one byte from each column in turn,
/// round after round, `total` bytes in all. Columns whose lengths are not
/// those in which `total` bytes are dealt out are rejected.
pub fn interleave(columns: &Vec<Vec<u8>>, total: usize) -> (out: Result<Vec<u8>, CryptoError>)
    ensures
        match out {
            Ok(bytes) => is_column_set(contents(columns@), total as nat) && bytes@ == interleaved(
                contents(columns@),
                total as nat,
            ),
            Err(e) => !is_column_set(contents(columns@), total as nat) && e
                == CryptoError::InvalidInput,
        },
{
    let key_length: usize = columns.len();
    if key_length == 0 {
        return Err(CryptoError::InvalidInput);
    }
    let ghost cols = contents(columns@);
    let mut i: usize = 0;
    while i < key_length
        invariant
            key_length == columns@.len(),
            key_length > 0,
            i <= key_length,
            cols == contents(columns@),
            forall|t: int|
                0 <= t < i ==> (#[trigger] cols[t]).len() == column_len(
                    total as nat,
                    key_length as nat,
                    t as nat,
                ),
        decreases key_length - i,
    {
        if columns[i].len() != column_length(total, key_length, i) {
            assert(cols[i as int].len() != column_len(total as nat, key_length as nat, i as nat));
            return Err(CryptoError::InvalidInput);
        }
        i += 1;
    }
    let mut bytes: Vec<u8> = Vec::new();
    let mut p: usize = 0;
    while p < total
        invariant
            key_length == columns@.len(),
            key_length > 0,
            p <= total,
            cols == contents(columns@),
            is_column_set(cols, total as nat),
            bytes.len() == p,
            forall|t: int| 0 <= t < p ==> bytes@[t] == interleaved(cols, total as nat)[t],
        decreases total - p,
    {
        let c: usize = p % key_length;
        let r: usize = p / key_length;
        proof {
            let l = key_length as int;
            vstd::arithmetic::div_mod::lemma_fundamental_div_mod(p as int, l);
            assert(c + r * l == p) by (nonlinear_arith)
                requires
                    p == l * r + c,
            ;
            lemma_column_len(total as nat, key_length as nat, c as nat, r as nat);
            assert(cols[c as int].len() == column_len(total as nat, key_length as nat, c as nat));
            assert(cols[c as int] == columns@[c as int]@);
        }
        bytes.push(columns[c][r]);
        p += 1;
    }
    assert(bytes@ =~= interleaved(cols, total as nat));
    Ok(bytes)
}

} // verus!
