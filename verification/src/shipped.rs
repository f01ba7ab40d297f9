//! What holds of the layouts in the tables.

use crate::layout;
use crate::layout::{Board, Def};
use crate::retyping;
use crate::tables;
use crate::text;
use vstd::prelude::*;

verus! {

/// Where a piece of a text begins, by the pieces before it.
spec fn begin(pieces: Seq<Seq<char>>, i: int) -> int
    decreases i,
{
    if i <= 0 {
        0
    } else {
        begin(pieces, i - 1) + pieces[i - 1].len() + 1
    }
}

proof fn lemma_begin_prefix(a: Seq<Seq<char>>, b: Seq<Seq<char>>, i: int)
    requires
        i <= a.len(),
        i <= b.len(),
        forall|k: int| 0 <= k < i ==> a[k] == b[k],
    ensures
        begin(a, i) == begin(b, i),
    decreases i,
{
    if i > 0 {
        lemma_begin_prefix(a, b, i - 1);
    }
}

/// These pieces, with a space in between, make up a text.
spec fn laid_out(p: Seq<Seq<char>>, s: Seq<char>) -> bool {
    &&& p.len() >= 1
    &&& begin(p, p.len() - 1) + p.last().len() == s.len()
    &&& forall|i: int| 0 <= i < p.len() ==> #[trigger] in_place(p, s, i)
    &&& forall|q: int| 0 <= q < s.len() && #[trigger] s[q] != ' ' ==> covered(p, q)
}

/// A piece stands where it begins, and a space follows if it is not the last.
spec fn in_place(p: Seq<Seq<char>>, s: Seq<char>, i: int) -> bool {
    &&& 0 <= begin(p, i)
    &&& begin(p, i) + p[i].len() <= s.len()
    &&& s.subrange(begin(p, i), begin(p, i) + p[i].len()) == p[i]
    &&& forall|k: int| 0 <= k < p[i].len() ==> #[trigger] p[i][k] != ' '
    &&& i < p.len() - 1 ==> begin(p, i) + p[i].len() < s.len() && s[begin(p, i) + p[i].len()] == ' '
}

/// A position of a text belongs to one of these pieces.
spec fn covered(p: Seq<Seq<char>>, q: int) -> bool {
    exists|i: int| 0 <= i < p.len() && #[trigger] begin(p, i) <= q < begin(p, i) + p[i].len()
}

proof fn lemma_push_space(p: Seq<Seq<char>>, s: Seq<char>)
    requires
        laid_out(p, s),
    ensures
        laid_out(p.push(Seq::empty()), s.push(' ')),
{
    let q = p.push(Seq::empty());
    let t = s.push(' ');
    let n = p.len() as int;
    assert forall|i: int| 0 <= i <= n implies begin(q, i) == #[trigger] begin(p, i) by {
        lemma_begin_prefix(q, p, i);
    }
    assert(p[n - 1] == p.last());
    assert(begin(p, n) == begin(p, n - 1) + p[n - 1].len() + 1);
    assert forall|i: int| 0 <= i < q.len() implies #[trigger] in_place(q, t, i) by {
        if i < n {
            assert(in_place(p, s, i));
            assert(q[i] == p[i]);
            assert(begin(q, i) == begin(p, i));
            let from = begin(p, i);
            assert(t.subrange(from, from + p[i].len()) =~= s.subrange(from, from + p[i].len()));
        } else {
            assert(begin(q, n) == begin(p, n));
            assert(t.subrange(begin(q, n), begin(q, n)) =~= q[n]);
        }
    }
    assert forall|x: int| 0 <= x < t.len() && #[trigger] t[x] != ' ' implies covered(q, x) by {
        assert(s[x] == t[x]);
        assert(covered(p, x));
        let i = choose|i: int|
            0 <= i < p.len() && #[trigger] begin(p, i) <= x < begin(p, i) + p[i].len();
        assert(begin(q, i) == begin(p, i));
        assert(q[i] == p[i]);
    }
    assert(begin(q, q.len() - 1) == begin(p, n));
}

proof fn lemma_push_char(p: Seq<Seq<char>>, s: Seq<char>, c: char)
    requires
        laid_out(p, s),
        c != ' ',
    ensures
        laid_out(p.drop_last().push(p.last().push(c)), s.push(c)),
{
    let last = p.last().push(c);
    let q = p.drop_last().push(last);
    let t = s.push(c);
    let n = p.len() - 1;
    assert(p[n] == p.last());
    assert(q[n] == last);
    assert forall|i: int| 0 <= i <= n implies begin(q, i) == #[trigger] begin(p, i) by {
        lemma_begin_prefix(q, p, i);
    }
    assert forall|i: int| 0 <= i < q.len() implies #[trigger] in_place(q, t, i) by {
        assert(in_place(p, s, i));
        assert(begin(q, i) == begin(p, i));
        let from = begin(p, i);
        if i < n {
            assert(q[i] == p[i]);
            assert(t.subrange(from, from + p[i].len()) =~= s.subrange(from, from + p[i].len()));
        } else {
            assert(s.subrange(from, from + p[n].len()) == p[n]);
            assert(t.subrange(from, from + last.len()) =~= last);
            assert forall|k: int| 0 <= k < last.len() implies #[trigger] last[k] != ' ' by {
                if k < p[n].len() {
                    assert(p[n][k] != ' ');
                }
            }
        }
    }
    assert forall|x: int| 0 <= x < t.len() && #[trigger] t[x] != ' ' implies covered(q, x) by {
        if x < s.len() {
            assert(s[x] == t[x]);
            assert(covered(p, x));
            let i = choose|i: int|
                0 <= i < p.len() && #[trigger] begin(p, i) <= x < begin(p, i) + p[i].len();
            assert(begin(q, i) == begin(p, i));
        } else {
            assert(begin(q, n) == begin(p, n));
        }
    }
    assert(begin(q, q.len() - 1) == begin(p, n));
}

proof fn lemma_laid_out(s: Seq<char>)
    ensures
        laid_out(text::pieces(s, ' '), s),
    decreases s.len(),
{
    if s.len() == 0 {
        let p = text::pieces(s, ' ');
        assert(s.subrange(0, 0) =~= p[0]);
        assert(begin(p, 0) == 0);
        assert(in_place(p, s, 0));
    } else {
        let t = s.drop_last();
        lemma_laid_out(t);
        if s.last() == ' ' {
            lemma_push_space(text::pieces(t, ' '), t);
            assert(t.push(' ') =~= s);
        } else {
            lemma_push_char(text::pieces(t, ' '), t, s.last());
            assert(t.push(s.last()) =~= s);
        }
    }
}

/// A character of a piece stands at its place in the text.
proof fn lemma_placed(p: Seq<Seq<char>>, s: Seq<char>, i: int, k: int)
    requires
        laid_out(p, s),
        0 <= i < p.len(),
        0 <= k < p[i].len(),
    ensures
        0 <= begin(p, i) + k < s.len(),
        s[begin(p, i) + k] == p[i][k],
        p[i][k] != ' ',
{
    assert(in_place(p, s, i));
    assert(s.subrange(begin(p, i), begin(p, i) + p[i].len())[k] == s[begin(p, i) + k]);
}

/// A character with spaces, or nothing, on both sides.
spec fn alone(s: Seq<char>, p: int) -> bool {
    &&& 0 <= p < s.len()
    &&& s[p] != ' '
    &&& p == 0 || s[p - 1] == ' '
    &&& p == s.len() - 1 || s[p + 1] == ' '
}

proof fn lemma_alone(s: Seq<char>, p: int) -> (i: int)
    requires
        alone(s, p),
    ensures
        0 <= i < text::pieces(s, ' ').len(),
        text::pieces(s, ' ')[i] == seq![s[p]],
{
    let all = text::pieces(s, ' ');
    lemma_laid_out(s);
    assert(s[p] != ' ');
    assert(covered(all, p));
    let i = choose|i: int|
        0 <= i < all.len() && #[trigger] begin(all, i) <= p < begin(all, i) + all[i].len();
    let k = p - begin(all, i);
    lemma_placed(all, s, i, k);
    if k > 0 {
        lemma_placed(all, s, i, k - 1);
    }
    if k + 1 < all[i].len() {
        lemma_placed(all, s, i, k + 1);
    }
    assert(in_place(all, s, i));
    assert(all[i] =~= seq![s[p]]);
    i
}

proof fn lemma_single_product(token: Seq<char>, c: char)
    requires
        token.len() == 1,
        token[0] == c,
    ensures
        layout::product(token).len() == 1,
        layout::product(token)[0] == c,
{
    reveal_strlit("~NONE~");
}

/// Whether a layout has a key for a character on its own.
spec fn has_letter(d: Def, c: char) -> bool {
    ||| exists|p: int| #[trigger] alone(d.lower, p) && d.lower[p] == c
    ||| exists|p: int| #[trigger] alone(d.upper, p) && d.upper[p] == c
}

proof fn lemma_has_letter(d: Def, c: char)
    requires
        layout::complete(d),
        has_letter(d, c),
    ensures
        layout::letter_slot(layout::slots_of(d), c, 0) is Some,
{
    let slots = layout::slots_of(d);
    layout::lemma_letter_slot(slots, c, 0);
    if exists|p: int| #[trigger] alone(d.lower, p) && d.lower[p] == c {
        let p = choose|p: int| #[trigger] alone(d.lower, p) && d.lower[p] == c;
        let i = lemma_alone(d.lower, p);
        lemma_single_product(layout::tokens(d.lower)[i], c);
        assert(slots[2 * i] == layout::product(layout::tokens(d.lower)[i]));
    } else {
        let p = choose|p: int| #[trigger] alone(d.upper, p) && d.upper[p] == c;
        let i = lemma_alone(d.upper, p);
        lemma_single_product(layout::tokens(d.upper)[i], c);
        assert(slots[2 * i + 1] == layout::product(layout::tokens(d.upper)[i]));
    }
}

/// Whether every character of a row's tokens has a key on its own.
spec fn row_spelt(d: Def, row: Seq<char>) -> bool {
    let p = layout::tokens(row);
    forall|i: int, k: int|
        0 <= i < p.len() && p[i] != layout::NONE@ && 0 <= k < p[i].len() ==> has_letter(
            d,
            #[trigger] p[i][k],
        )
}

proof fn lemma_row_spelt(d: Def, row: Seq<char>)
    requires
        forall|p: int| 0 <= p < row.len() && #[trigger] row[p] != ' ' ==> has_letter(d, row[p]),
    ensures
        row_spelt(d, row),
{
    lemma_laid_out(row);
    let p = layout::tokens(row);
    assert forall|i: int, k: int|
        0 <= i < p.len() && p[i] != layout::NONE@ && 0 <= k < p[i].len() implies has_letter(
        d,
        #[trigger] p[i][k],
    ) by {
        lemma_placed(p, row, i, k);
    }
}

/// How often a character stands in the first `n` positions of a text.
spec fn occurs(s: Seq<char>, c: char, n: int) -> int
    decreases n,
{
    if n <= 0 {
        0
    } else {
        occurs(s, c, n - 1) + if s[n - 1] == c {
            1int
        } else {
            0
        }
    }
}

proof fn lemma_occurs(s: Seq<char>, c: char, p: int, n: int)
    requires
        0 <= p < n,
        s[p] == c,
    ensures
        occurs(s, c, n) >= 1,
        forall|q: int| 0 <= q < n && q != p && s[q] == c ==> occurs(s, c, n) >= 2,
    decreases n,
{
    lemma_occurs_grows(s, c, n - 1);
    if p < n - 1 {
        lemma_occurs(s, c, p, n - 1);
    } else {
        assert forall|q: int| 0 <= q < n && q != p && s[q] == c implies occurs(s, c, n) >= 2 by {
            lemma_occurs(s, c, q, n - 1);
        }
    }
}

proof fn lemma_occurs_grows(s: Seq<char>, c: char, n: int)
    ensures
        occurs(s, c, n) >= 0,
    decreases n,
{
    if n > 0 {
        lemma_occurs_grows(s, c, n - 1);
    }
}

/// Whether a character stands in the rows of a layout exactly once.
spec fn once(d: Def, c: char) -> bool {
    occurs(d.lower, c, d.lower.len() as int) + occurs(d.upper, c, d.upper.len() as int) == 1
}

/// The row of a slot.
spec fn row_of(d: Def, j: int) -> Seq<char> {
    if j % 2 == 0 {
        d.lower
    } else {
        d.upper
    }
}

/// A character that stands in the rows once is produced by one slot only.
proof fn lemma_once(d: Def, c: char, a: int, m: int, b: int, n: int)
    requires
        layout::complete(d),
        once(d, c),
        0 <= a < layout::slots_of(d).len(),
        0 <= b < layout::slots_of(d).len(),
        0 <= m < layout::slots_of(d)[a].len(),
        0 <= n < layout::slots_of(d)[b].len(),
        layout::slots_of(d)[a][m] == c,
        layout::slots_of(d)[b][n] == c,
    ensures
        a == b,
{
    let slots = layout::slots_of(d);
    let ra = row_of(d, a);
    let rb = row_of(d, b);
    let pa = layout::tokens(ra);
    let pb = layout::tokens(rb);
    lemma_laid_out(ra);
    lemma_laid_out(rb);
    assert(slots[a] == pa[a / 2]);
    assert(slots[b] == pb[b / 2]);
    let x = begin(pa, a / 2) + m;
    let y = begin(pb, b / 2) + n;
    lemma_placed(pa, ra, a / 2, m);
    lemma_placed(pb, rb, b / 2, n);
    lemma_occurs(ra, c, x, ra.len() as int);
    lemma_occurs(rb, c, y, rb.len() as int);
    lemma_occurs_grows(d.lower, c, d.lower.len() as int);
    lemma_occurs_grows(d.upper, c, d.upper.len() as int);
    if a % 2 == b % 2 {
        assert(ra == rb);
        assert(x == y);
        if a / 2 < b / 2 {
            lemma_begin_grows(pa, a / 2, b / 2);
        } else if b / 2 < a / 2 {
            lemma_begin_grows(pa, b / 2, a / 2);
        }
    }
}

proof fn lemma_begin_grows(p: Seq<Seq<char>>, i: int, j: int)
    requires
        0 <= i < j <= p.len(),
    ensures
        begin(p, i) + p[i].len() < begin(p, j),
    decreases j - i,
{
    if i + 1 < j {
        lemma_begin_grows(p, i, j - 1);
    }
}

proof fn lemma_mark_among(b: Board, slot: int, n: int)
    requires
        n <= b.dead.len(),
        b.mark_among(slot, n) is Some,
    ensures
        exists|i: int| 0 <= i < n && (#[trigger] b.dead[i]).1 == slot,
    decreases n,
{
    if n > 0 && b.dead[n - 1].1 != slot {
        lemma_mark_among(b, slot, n - 1);
    }
}

proof fn lemma_dead_slots(slots: Seq<Seq<char>>, dead: Seq<(char, char)>, i: int)
    requires
        0 <= i < layout::dead_slots(slots, dead).len(),
    ensures
        exists|m: int|
            0 <= m < dead.len() && layout::slot_for(slots, (#[trigger] dead[m]).1) == Some(
                layout::dead_slots(slots, dead)[i].1,
            ),
    decreases dead.len(),
{
    let before = layout::dead_slots(slots, dead.drop_last());
    if i < before.len() {
        lemma_dead_slots(slots, dead.drop_last(), i);
        let m = choose|m: int|
            0 <= m < dead.len() - 1 && layout::slot_for(
                slots,
                (#[trigger] dead.drop_last()[m]).1,
            ) == Some(before[i].1);
        assert(dead[m] == dead.drop_last()[m]);
    } else {
        assert(dead[dead.len() - 1] == dead.last());
    }
}

/// Every character that a key of a layout produces, dead keys aside, has a key
/// of its own that is no dead key, if that can be seen from its rows.
proof fn lemma_spells(d: Def)
    requires
        layout::complete(d),
        row_spelt(d, d.lower),
        row_spelt(d, d.upper),
        forall|m: int| 0 <= m < d.dead.len() ==> once(d, (#[trigger] d.dead[m]).1),
    ensures
        retyping::spells(layout::board_of(d)),
        retyping::lettered(layout::board_of(d)),
{
    let b = layout::board_of(d);
    assert forall|j: int, k: int|
        0 <= j < b.slots.len() && 0 <= k < b.slots[j].len() implies layout::letter_slot(
        b.slots,
        #[trigger] b.slots[j][k],
        0,
    ) is Some by {
        let row = row_of(d, j);
        assert(b.slots[j] == layout::product(layout::tokens(row)[j / 2]));
        assert(layout::tokens(row)[j / 2][k] == b.slots[j][k]);
        assert(row_spelt(d, row));
        assert(has_letter(d, b.slots[j][k]));
        lemma_has_letter(d, b.slots[j][k]);
    }
    assert forall|j: int, k: int|
        0 <= j < b.slots.len() && b.mark(j) is None && 0 <= k < b.slots[j].len() implies (
    layout::letter_slot(b.slots, #[trigger] b.slots[j][k], 0) matches Some(l) && b.mark(
        l,
    ) is None) by {
        let c = b.slots[j][k];
        let row = row_of(d, j);
        assert(b.slots[j] == layout::product(layout::tokens(row)[j / 2]));
        assert(layout::tokens(row)[j / 2][k] == c);
        assert(row_spelt(d, row));
        assert(has_letter(d, c));
        lemma_has_letter(d, c);
        layout::lemma_letter_slot(b.slots, c, 0);
        let l = layout::letter_slot(b.slots, c, 0)->0;
        if b.mark(l) is Some {
            lemma_mark_among(b, l, b.dead.len() as int);
            let i = choose|i: int| 0 <= i < b.dead.len() && (#[trigger] b.dead[i]).1 == l;
            lemma_dead_slots(b.slots, d.dead, i);
            let m = choose|m: int|
                0 <= m < d.dead.len() && layout::slot_for(b.slots, (#[trigger] d.dead[m]).1)
                    == Some(l);
            layout::lemma_slot_for(b.slots, d.dead[m].1);
            assert(c == d.dead[m].1);
            lemma_once(d, c, j, k, l, 0);
        }
    }
}

/// Whether each of the first `n` characters of a row is a space, alone, or one
/// of the characters given besides.
spec fn clear_to(row: Seq<char>, besides: spec_fn(char) -> bool, n: int) -> bool
    decreases n,
{
    n <= 0 || ((row[n - 1] == ' ' || alone(row, n - 1) || besides(row[n - 1])) && clear_to(
        row,
        besides,
        n - 1,
    ))
}

proof fn lemma_clear_to(row: Seq<char>, besides: spec_fn(char) -> bool, n: int, p: int)
    requires
        clear_to(row, besides, n),
        0 <= p < n,
    ensures
        row[p] == ' ' || alone(row, p) || besides(row[p]),
    decreases n,
{
    if p < n - 1 {
        lemma_clear_to(row, besides, n - 1, p);
    }
}

/// No characters besides.
spec fn none_besides() -> spec_fn(char) -> bool {
    |c: char| false
}

/// A row of a layout whose characters are alone, or letters on their own
/// elsewhere.
proof fn lemma_clear_row(d: Def, row: Seq<char>, besides: spec_fn(char) -> bool)
    requires
        row == d.lower || row == d.upper,
        clear_to(row, besides, row.len() as int),
        forall|c: char| #[trigger] besides(c) ==> has_letter(d, c),
    ensures
        row_spelt(d, row),
{
    assert forall|p: int| 0 <= p < row.len() && #[trigger] row[p] != ' ' implies has_letter(
        d,
        row[p],
    ) by {
        lemma_clear_to(row, besides, row.len() as int, p);
    }
    lemma_row_spelt(d, row);
}

proof fn lemma_us_lower_clear()
    ensures
        clear_to(tables::US_LOWER@, none_besides(), tables::US_LOWER@.len() as int),
{
    reveal_strlit("` 1 2 3 4 5 6 7 8 9 0 - = q w e r t y u i o p [ ] \\ a s d f g h j k l ; ' z x c v b n m , . /");
    reveal_with_fuel(clear_to, 120);
}

proof fn lemma_us_upper_clear()
    ensures
        clear_to(tables::US_UPPER@, none_besides(), tables::US_UPPER@.len() as int),
{
    reveal_strlit("~ ! @ # $ % ^ & * ( ) _ + Q W E R T Y U I O P { } | A S D F G H J K L : \" Z X C V B N M < > ?");
    reveal_with_fuel(clear_to, 120);
}

proof fn lemma_us_spells()
    ensures
        retyping::spells(layout::board_of(tables::us())),
        retyping::lettered(layout::board_of(tables::us())),
{
    let d = tables::us();
    layout::lemma_known_layouts_complete(0);
    assert(tables::known()[0] == d);
    lemma_us_lower_clear();
    lemma_clear_row(d, d.lower, none_besides());
    lemma_us_upper_clear();
    lemma_clear_row(d, d.upper, none_besides());
    lemma_spells(d);
}

proof fn lemma_ru_lower_clear()
    ensures
        clear_to(tables::RU_LOWER@, none_besides(), tables::RU_LOWER@.len() as int),
{
    reveal_strlit("ё 1 2 3 4 5 6 7 8 9 0 - = й ц у к е н г ш щ з х ъ \\ ф ы в а п р о л д ж э я ч с м и т ь б ю .");
    reveal_with_fuel(clear_to, 120);
}

proof fn lemma_ru_upper_clear()
    ensures
        clear_to(tables::RU_UPPER@, none_besides(), tables::RU_UPPER@.len() as int),
{
    reveal_strlit("Ё ! \" № ; % : ? * ( ) _ + Й Ц У К Е Н Г Ш Щ З Х Ъ / Ф Ы В А П Р О Л Д Ж Э Я Ч С М И Т Ь Б Ю ,");
    reveal_with_fuel(clear_to, 120);
}

proof fn lemma_ru_spells()
    ensures
        retyping::spells(layout::board_of(tables::ru())),
        retyping::lettered(layout::board_of(tables::ru())),
{
    let d = tables::ru();
    layout::lemma_known_layouts_complete(1);
    assert(tables::known()[1] == d);
    lemma_ru_lower_clear();
    lemma_clear_row(d, d.lower, none_besides());
    lemma_ru_upper_clear();
    lemma_clear_row(d, d.upper, none_besides());
    lemma_spells(d);
}

proof fn lemma_uk_lower_clear()
    ensures
        clear_to(tables::UK_LOWER@, none_besides(), tables::UK_LOWER@.len() as int),
{
    reveal_strlit("' 1 2 3 4 5 6 7 8 9 0 - = й ц у к е н г ш щ з х ї ґ ф і в а п р о л д ж є я ч с м и т ь б ю .");
    reveal_with_fuel(clear_to, 120);
}

proof fn lemma_uk_upper_clear()
    ensures
        clear_to(tables::UK_UPPER@, none_besides(), tables::UK_UPPER@.len() as int),
{
    reveal_strlit("₴ ! \" № ; % : ? * ( ) _ + Й Ц У К Е Н Г Ш Щ З Х Ї Ґ Ф І В А П Р О Л Д Ж Є Я Ч С М И Т Ь Б Ю ,");
    reveal_with_fuel(clear_to, 120);
}

proof fn lemma_uk_spells()
    ensures
        retyping::spells(layout::board_of(tables::uk())),
        retyping::lettered(layout::board_of(tables::uk())),
{
    let d = tables::uk();
    layout::lemma_known_layouts_complete(2);
    assert(tables::known()[2] == d);
    lemma_uk_lower_clear();
    lemma_clear_row(d, d.lower, none_besides());
    lemma_uk_upper_clear();
    lemma_clear_row(d, d.upper, none_besides());
    lemma_spells(d);
}

proof fn lemma_he_lower_clear()
    ensures
        clear_to(tables::HE_LOWER@, none_besides(), tables::HE_LOWER@.len() as int),
{
    reveal_strlit("; 1 2 3 4 5 6 7 8 9 0 - = / ' ק ר א ט ו ן ם פ ] [ \\ ש ד ג כ ע י ח ל ך ף , ז ס ב ה נ מ צ ת ץ .");
    reveal_with_fuel(clear_to, 120);
}

proof fn lemma_he_upper_clear()
    ensures
        clear_to(tables::HE_UPPER@, none_besides(), tables::HE_UPPER@.len() as int),
{
    reveal_strlit("~ ! @ # $ % ^ & * ( ) _ + Q W ק ר א ט ו ן ם פ } { | ש ד ג כ ע י ח ל ך ף \" ז ס ב ה נ מ צ ת ץ ?");
    reveal_with_fuel(clear_to, 120);
}

proof fn lemma_he_spells()
    ensures
        retyping::spells(layout::board_of(tables::he())),
        retyping::lettered(layout::board_of(tables::he())),
{
    let d = tables::he();
    layout::lemma_known_layouts_complete(3);
    assert(tables::known()[3] == d);
    lemma_he_lower_clear();
    lemma_clear_row(d, d.lower, none_besides());
    lemma_he_upper_clear();
    lemma_clear_row(d, d.upper, none_besides());
    lemma_spells(d);
}

/// The letters of the ligatures.
spec fn ar_besides() -> spec_fn(char) -> bool {
    |c: char| c == '\u{622}' || c == '\u{623}' || c == '\u{625}' || c == '\u{627}' || c == '\u{644}'
}

proof fn lemma_ar_letters(c: char)
    requires
        ar_besides()(c),
    ensures
        has_letter(tables::ar(), c),
{
    let d = tables::ar();
    reveal_strlit("ذ 1 2 3 4 5 6 7 8 9 0 - = ض ص ث ق ف غ ع ه خ ح ج د \\ ش س ي ب ل ا ت ن م ك ط ئ ء ؤ ر لا ى ة و ز ظ");
    reveal_strlit("ّ ! @ # $ % ^ & * ( ) _ + َ ً ُ ٌ لإ إ ‘ ÷ × ؛ < > | ِ ٍ ] [ لأ أ ـ ، / : \" ~ ْ } { لآ آ ’ , . ؟");
    assert(alone(d.upper, 87) && d.upper[87] == '\u{622}');
    assert(alone(d.upper, 64) && d.upper[64] == '\u{623}');
    assert(alone(d.upper, 37) && d.upper[37] == '\u{625}');
    assert(alone(d.lower, 62) && d.lower[62] == '\u{627}');
    assert(alone(d.lower, 60) && d.lower[60] == '\u{644}');
}

proof fn lemma_ar_lower_clear()
    ensures
        clear_to(tables::AR_LOWER@, ar_besides(), tables::AR_LOWER@.len() as int),
{
    reveal_strlit("ذ 1 2 3 4 5 6 7 8 9 0 - = ض ص ث ق ف غ ع ه خ ح ج د \\ ش س ي ب ل ا ت ن م ك ط ئ ء ؤ ر لا ى ة و ز ظ");
    reveal_with_fuel(clear_to, 120);
}

proof fn lemma_ar_upper_clear()
    ensures
        clear_to(tables::AR_UPPER@, ar_besides(), tables::AR_UPPER@.len() as int),
{
    reveal_strlit("ّ ! @ # $ % ^ & * ( ) _ + َ ً ُ ٌ لإ إ ‘ ÷ × ؛ < > | ِ ٍ ] [ لأ أ ـ ، / : \" ~ ْ } { لآ آ ’ , . ؟");
    reveal_with_fuel(clear_to, 120);
}

proof fn lemma_ar_spells()
    ensures
        retyping::spells(layout::board_of(tables::ar())),
        retyping::lettered(layout::board_of(tables::ar())),
{
    let d = tables::ar();
    layout::lemma_known_layouts_complete(4);
    assert(tables::known()[4] == d);
    lemma_ar_lower_clear();
    assert forall|c: char| #[trigger] ar_besides()(c) implies has_letter(d, c) by {
        lemma_ar_letters(c);
    }
    lemma_clear_row(d, d.lower, ar_besides());
    lemma_ar_upper_clear();
    lemma_clear_row(d, d.upper, ar_besides());
    lemma_spells(d);
}

proof fn lemma_el_384_once()
    ensures
        once(tables::el(), '\u{384}'),
{
    let d = tables::el();
    assert(occurs(d.lower, '\u{384}', d.lower.len() as int) == 1) by {
        reveal_strlit("` 1 2 3 4 5 6 7 8 9 0 - = ; ς ε ρ τ υ θ ι ο π [ ] \\ α σ δ φ γ η ξ κ λ ΄ ' ζ χ ψ ω β ν μ , . /");
        reveal_with_fuel(occurs, 120);
    }
    assert(occurs(d.upper, '\u{384}', d.upper.len() as int) == 0) by {
        reveal_strlit("~ ! @ # $ % ^ & * ( ) _ + : Σ Ε Ρ Τ Υ Θ Ι Ο Π { } | Α Σ Δ Φ Γ Η Ξ Κ Λ ¨ \" Ζ Χ Ψ Ω Β Ν Μ < > ?");
        reveal_with_fuel(occurs, 120);
    }
}

proof fn lemma_el_a8_once()
    ensures
        once(tables::el(), '\u{a8}'),
{
    let d = tables::el();
    assert(occurs(d.lower, '\u{a8}', d.lower.len() as int) == 0) by {
        reveal_strlit("` 1 2 3 4 5 6 7 8 9 0 - = ; ς ε ρ τ υ θ ι ο π [ ] \\ α σ δ φ γ η ξ κ λ ΄ ' ζ χ ψ ω β ν μ , . /");
        reveal_with_fuel(occurs, 120);
    }
    assert(occurs(d.upper, '\u{a8}', d.upper.len() as int) == 1) by {
        reveal_strlit("~ ! @ # $ % ^ & * ( ) _ + : Σ Ε Ρ Τ Υ Θ Ι Ο Π { } | Α Σ Δ Φ Γ Η Ξ Κ Λ ¨ \" Ζ Χ Ψ Ω Β Ν Μ < > ?");
        reveal_with_fuel(occurs, 120);
    }
}

proof fn lemma_el_lower_clear()
    ensures
        clear_to(tables::EL_LOWER@, none_besides(), tables::EL_LOWER@.len() as int),
{
    reveal_strlit("` 1 2 3 4 5 6 7 8 9 0 - = ; ς ε ρ τ υ θ ι ο π [ ] \\ α σ δ φ γ η ξ κ λ ΄ ' ζ χ ψ ω β ν μ , . /");
    reveal_with_fuel(clear_to, 120);
}

proof fn lemma_el_upper_clear()
    ensures
        clear_to(tables::EL_UPPER@, none_besides(), tables::EL_UPPER@.len() as int),
{
    reveal_strlit("~ ! @ # $ % ^ & * ( ) _ + : Σ Ε Ρ Τ Υ Θ Ι Ο Π { } | Α Σ Δ Φ Γ Η Ξ Κ Λ ¨ \" Ζ Χ Ψ Ω Β Ν Μ < > ?");
    reveal_with_fuel(clear_to, 120);
}

proof fn lemma_el_spells()
    ensures
        retyping::spells(layout::board_of(tables::el())),
        retyping::lettered(layout::board_of(tables::el())),
{
    let d = tables::el();
    layout::lemma_known_layouts_complete(5);
    assert(tables::known()[5] == d);
    lemma_el_lower_clear();
    lemma_clear_row(d, d.lower, none_besides());
    lemma_el_upper_clear();
    lemma_clear_row(d, d.upper, none_besides());
    lemma_el_384_once();
    lemma_el_a8_once();
    lemma_spells(d);
}

proof fn lemma_de_b4_once()
    ensures
        once(tables::de(), '\u{b4}'),
{
    let d = tables::de();
    assert(occurs(d.lower, '\u{b4}', d.lower.len() as int) == 1) by {
        reveal_strlit("^ 1 2 3 4 5 6 7 8 9 0 ß ´ q w e r t z u i o p ü + # a s d f g h j k l ö ä y x c v b n m , . -");
        reveal_with_fuel(occurs, 120);
    }
    assert(occurs(d.upper, '\u{b4}', d.upper.len() as int) == 0) by {
        reveal_strlit("° ! \" § $ % & / ( ) = ? ` Q W E R T Z U I O P Ü * ' A S D F G H J K L Ö Ä Y X C V B N M ; : _");
        reveal_with_fuel(occurs, 120);
    }
}

proof fn lemma_de_60_once()
    ensures
        once(tables::de(), '\u{60}'),
{
    let d = tables::de();
    assert(occurs(d.lower, '\u{60}', d.lower.len() as int) == 0) by {
        reveal_strlit("^ 1 2 3 4 5 6 7 8 9 0 ß ´ q w e r t z u i o p ü + # a s d f g h j k l ö ä y x c v b n m , . -");
        reveal_with_fuel(occurs, 120);
    }
    assert(occurs(d.upper, '\u{60}', d.upper.len() as int) == 1) by {
        reveal_strlit("° ! \" § $ % & / ( ) = ? ` Q W E R T Z U I O P Ü * ' A S D F G H J K L Ö Ä Y X C V B N M ; : _");
        reveal_with_fuel(occurs, 120);
    }
}

proof fn lemma_de_5e_once()
    ensures
        once(tables::de(), '\u{5e}'),
{
    let d = tables::de();
    assert(occurs(d.lower, '\u{5e}', d.lower.len() as int) == 1) by {
        reveal_strlit("^ 1 2 3 4 5 6 7 8 9 0 ß ´ q w e r t z u i o p ü + # a s d f g h j k l ö ä y x c v b n m , . -");
        reveal_with_fuel(occurs, 120);
    }
    assert(occurs(d.upper, '\u{5e}', d.upper.len() as int) == 0) by {
        reveal_strlit("° ! \" § $ % & / ( ) = ? ` Q W E R T Z U I O P Ü * ' A S D F G H J K L Ö Ä Y X C V B N M ; : _");
        reveal_with_fuel(occurs, 120);
    }
}

proof fn lemma_de_lower_clear()
    ensures
        clear_to(tables::DE_LOWER@, none_besides(), tables::DE_LOWER@.len() as int),
{
    reveal_strlit("^ 1 2 3 4 5 6 7 8 9 0 ß ´ q w e r t z u i o p ü + # a s d f g h j k l ö ä y x c v b n m , . -");
    reveal_with_fuel(clear_to, 120);
}

proof fn lemma_de_upper_clear()
    ensures
        clear_to(tables::DE_UPPER@, none_besides(), tables::DE_UPPER@.len() as int),
{
    reveal_strlit("° ! \" § $ % & / ( ) = ? ` Q W E R T Z U I O P Ü * ' A S D F G H J K L Ö Ä Y X C V B N M ; : _");
    reveal_with_fuel(clear_to, 120);
}

proof fn lemma_de_spells()
    ensures
        retyping::spells(layout::board_of(tables::de())),
        retyping::lettered(layout::board_of(tables::de())),
{
    let d = tables::de();
    layout::lemma_known_layouts_complete(6);
    assert(tables::known()[6] == d);
    lemma_de_lower_clear();
    lemma_clear_row(d, d.lower, none_besides());
    lemma_de_upper_clear();
    lemma_clear_row(d, d.upper, none_besides());
    lemma_de_b4_once();
    lemma_de_60_once();
    lemma_de_5e_once();
    lemma_spells(d);
}

proof fn lemma_fr_5e_once()
    ensures
        once(tables::fr(), '\u{5e}'),
{
    assert(occurs(tables::FR_LOWER@, '\u{5e}', tables::FR_LOWER@.len() as int) == 1) by {
        reveal_strlit("² & é \" ' ( - è _ ç à ) = a z e r t y u i o p ^ $ * q s d f g h j k l m ù w x c v b n , ; : !");
        reveal_with_fuel(occurs, 120);
    }
    assert(occurs(tables::FR_UPPER@, '\u{5e}', 50) == 0) by {
        reveal_strlit("~NONE~ 1 2 3 4 5 6 7 8 9 0 ° + A Z E R T Y U I O P ¨ £ µ Q S D F G H J K L M % W X C V B N ? . / §");
        reveal_with_fuel(occurs, 60);
    }
    assert(occurs(tables::FR_UPPER@, '\u{5e}', tables::FR_UPPER@.len() as int) == 0) by {
        reveal_strlit("~NONE~ 1 2 3 4 5 6 7 8 9 0 ° + A Z E R T Y U I O P ¨ £ µ Q S D F G H J K L M % W X C V B N ? . / §");
        reveal_with_fuel(occurs, 120);
    }
}

proof fn lemma_fr_a8_once()
    ensures
        once(tables::fr(), '\u{a8}'),
{
    assert(occurs(tables::FR_LOWER@, '\u{a8}', tables::FR_LOWER@.len() as int) == 0) by {
        reveal_strlit("² & é \" ' ( - è _ ç à ) = a z e r t y u i o p ^ $ * q s d f g h j k l m ù w x c v b n , ; : !");
        reveal_with_fuel(occurs, 120);
    }
    assert(occurs(tables::FR_UPPER@, '\u{a8}', 50) == 0) by {
        reveal_strlit("~NONE~ 1 2 3 4 5 6 7 8 9 0 ° + A Z E R T Y U I O P ¨ £ µ Q S D F G H J K L M % W X C V B N ? . / §");
        reveal_with_fuel(occurs, 60);
    }
    assert(occurs(tables::FR_UPPER@, '\u{a8}', tables::FR_UPPER@.len() as int) == 1) by {
        reveal_strlit("~NONE~ 1 2 3 4 5 6 7 8 9 0 ° + A Z E R T Y U I O P ¨ £ µ Q S D F G H J K L M % W X C V B N ? . / §");
        reveal_with_fuel(occurs, 120);
    }
}

/// Whether each of the characters of a row from `m` to `n` is a space, alone, or
/// one of the characters given besides.
spec fn clear_from(row: Seq<char>, besides: spec_fn(char) -> bool, m: int, n: int) -> bool
    decreases n - m,
{
    n <= m || ((row[n - 1] == ' ' || alone(row, n - 1) || besides(row[n - 1])) && clear_from(
        row,
        besides,
        m,
        n - 1,
    ))
}

proof fn lemma_clear_from(row: Seq<char>, besides: spec_fn(char) -> bool, m: int, n: int, p: int)
    requires
        clear_from(row, besides, m, n),
        m <= p < n,
    ensures
        row[p] == ' ' || alone(row, p) || besides(row[p]),
    decreases n - m,
{
    if p < n - 1 {
        lemma_clear_from(row, besides, m, n - 1, p);
    }
}

/// The tilde stands only in the token for a key without a product.
proof fn lemma_fr_upper_spelt()
    ensures
        row_spelt(tables::fr(), tables::fr().upper),
{
    let d = tables::fr();
    let row = d.upper;
    let p = layout::tokens(row);
    lemma_laid_out(row);
    assert(clear_from(row, none_besides(), 7, row.len() as int)) by {
        reveal_strlit("~NONE~ 1 2 3 4 5 6 7 8 9 0 ° + A Z E R T Y U I O P ¨ £ µ Q S D F G H J K L M % W X C V B N ? . / §");
        reveal_with_fuel(clear_from, 120);
    }
    assert(p[0] == layout::NONE@) by {
        reveal_strlit("~NONE~ 1 2 3 4 5 6 7 8 9 0 ° + A Z E R T Y U I O P ¨ £ µ Q S D F G H J K L M % W X C V B N ? . / §");
        reveal_strlit("~NONE~");
        assert(in_place(p, row, 0));
        let n = p[0].len() as int;
        assert(begin(p, 0) == 0);
        if n > 6 {
            lemma_placed(p, row, 0, 6);
        }
        assert(p.len() > 1) by {
            if p.len() == 1 {
                assert(begin(p, 0) + p[0].len() == row.len());
            }
        }
        assert(row[n] == ' ');
        assert(n == 6);
        assert(p[0] =~= layout::NONE@);
    }
    assert forall|i: int, k: int|
        0 <= i < p.len() && p[i] != layout::NONE@ && 0 <= k < p[i].len() implies has_letter(
        d,
        #[trigger] p[i][k],
    ) by {
        reveal_strlit("~NONE~");
        lemma_begin_grows(p, 0, i);
        lemma_placed(p, row, i, k);
        lemma_clear_from(row, none_besides(), 7, row.len() as int, begin(p, i) + k);
    }
}

proof fn lemma_fr_lower_clear()
    ensures
        clear_to(tables::FR_LOWER@, none_besides(), tables::FR_LOWER@.len() as int),
{
    reveal_strlit("² & é \" ' ( - è _ ç à ) = a z e r t y u i o p ^ $ * q s d f g h j k l m ù w x c v b n , ; : !");
    reveal_with_fuel(clear_to, 120);
}

proof fn lemma_fr_spells()
    ensures
        retyping::spells(layout::board_of(tables::fr())),
        retyping::lettered(layout::board_of(tables::fr())),
{
    let d = tables::fr();
    layout::lemma_known_layouts_complete(7);
    assert(tables::known()[7] == d);
    lemma_fr_lower_clear();
    lemma_clear_row(d, d.lower, none_besides());
    lemma_fr_upper_spelt();
    lemma_fr_5e_once();
    lemma_fr_a8_once();
    lemma_spells(d);
}

proof fn lemma_es_b4_once()
    ensures
        once(tables::es(), '\u{b4}'),
{
    let d = tables::es();
    assert(occurs(d.lower, '\u{b4}', d.lower.len() as int) == 1) by {
        reveal_strlit("º 1 2 3 4 5 6 7 8 9 0 ' ¡ q w e r t y u i o p ` + ç a s d f g h j k l ñ ´ z x c v b n m , . -");
        reveal_with_fuel(occurs, 120);
    }
    assert(occurs(d.upper, '\u{b4}', d.upper.len() as int) == 0) by {
        reveal_strlit("ª ! \" · $ % & / ( ) = ? ¿ Q W E R T Y U I O P ^ * Ç A S D F G H J K L Ñ ¨ Z X C V B N M ; : _");
        reveal_with_fuel(occurs, 120);
    }
}

proof fn lemma_es_a8_once()
    ensures
        once(tables::es(), '\u{a8}'),
{
    let d = tables::es();
    assert(occurs(d.lower, '\u{a8}', d.lower.len() as int) == 0) by {
        reveal_strlit("º 1 2 3 4 5 6 7 8 9 0 ' ¡ q w e r t y u i o p ` + ç a s d f g h j k l ñ ´ z x c v b n m , . -");
        reveal_with_fuel(occurs, 120);
    }
    assert(occurs(d.upper, '\u{a8}', d.upper.len() as int) == 1) by {
        reveal_strlit("ª ! \" · $ % & / ( ) = ? ¿ Q W E R T Y U I O P ^ * Ç A S D F G H J K L Ñ ¨ Z X C V B N M ; : _");
        reveal_with_fuel(occurs, 120);
    }
}

proof fn lemma_es_60_once()
    ensures
        once(tables::es(), '\u{60}'),
{
    let d = tables::es();
    assert(occurs(d.lower, '\u{60}', d.lower.len() as int) == 1) by {
        reveal_strlit("º 1 2 3 4 5 6 7 8 9 0 ' ¡ q w e r t y u i o p ` + ç a s d f g h j k l ñ ´ z x c v b n m , . -");
        reveal_with_fuel(occurs, 120);
    }
    assert(occurs(d.upper, '\u{60}', d.upper.len() as int) == 0) by {
        reveal_strlit("ª ! \" · $ % & / ( ) = ? ¿ Q W E R T Y U I O P ^ * Ç A S D F G H J K L Ñ ¨ Z X C V B N M ; : _");
        reveal_with_fuel(occurs, 120);
    }
}

proof fn lemma_es_5e_once()
    ensures
        once(tables::es(), '\u{5e}'),
{
    let d = tables::es();
    assert(occurs(d.lower, '\u{5e}', d.lower.len() as int) == 0) by {
        reveal_strlit("º 1 2 3 4 5 6 7 8 9 0 ' ¡ q w e r t y u i o p ` + ç a s d f g h j k l ñ ´ z x c v b n m , . -");
        reveal_with_fuel(occurs, 120);
    }
    assert(occurs(d.upper, '\u{5e}', d.upper.len() as int) == 1) by {
        reveal_strlit("ª ! \" · $ % & / ( ) = ? ¿ Q W E R T Y U I O P ^ * Ç A S D F G H J K L Ñ ¨ Z X C V B N M ; : _");
        reveal_with_fuel(occurs, 120);
    }
}

proof fn lemma_es_lower_clear()
    ensures
        clear_to(tables::ES_LOWER@, none_besides(), tables::ES_LOWER@.len() as int),
{
    reveal_strlit("º 1 2 3 4 5 6 7 8 9 0 ' ¡ q w e r t y u i o p ` + ç a s d f g h j k l ñ ´ z x c v b n m , . -");
    reveal_with_fuel(clear_to, 120);
}

proof fn lemma_es_upper_clear()
    ensures
        clear_to(tables::ES_UPPER@, none_besides(), tables::ES_UPPER@.len() as int),
{
    reveal_strlit("ª ! \" · $ % & / ( ) = ? ¿ Q W E R T Y U I O P ^ * Ç A S D F G H J K L Ñ ¨ Z X C V B N M ; : _");
    reveal_with_fuel(clear_to, 120);
}

proof fn lemma_es_spells()
    ensures
        retyping::spells(layout::board_of(tables::es())),
        retyping::lettered(layout::board_of(tables::es())),
{
    let d = tables::es();
    layout::lemma_known_layouts_complete(8);
    assert(tables::known()[8] == d);
    lemma_es_lower_clear();
    lemma_clear_row(d, d.lower, none_besides());
    lemma_es_upper_clear();
    lemma_clear_row(d, d.upper, none_besides());
    lemma_es_b4_once();
    lemma_es_a8_once();
    lemma_es_60_once();
    lemma_es_5e_once();
    lemma_spells(d);
}

proof fn lemma_tr_lower_clear()
    ensures
        clear_to(tables::TR_LOWER@, none_besides(), tables::TR_LOWER@.len() as int),
{
    reveal_strlit("\" 1 2 3 4 5 6 7 8 9 0 * - q w e r t y u ı o p ğ ü , a s d f g h j k l ş i z x c v b n m ö ç .");
    reveal_with_fuel(clear_to, 120);
}

proof fn lemma_tr_upper_clear()
    ensures
        clear_to(tables::TR_UPPER@, none_besides(), tables::TR_UPPER@.len() as int),
{
    reveal_strlit("é ! ' ^ + % & / ( ) = ? _ Q W E R T Y U I O P Ğ Ü ; A S D F G H J K L Ş İ Z X C V B N M Ö Ç :");
    reveal_with_fuel(clear_to, 120);
}

proof fn lemma_tr_spells()
    ensures
        retyping::spells(layout::board_of(tables::tr())),
        retyping::lettered(layout::board_of(tables::tr())),
{
    let d = tables::tr();
    layout::lemma_known_layouts_complete(9);
    assert(tables::known()[9] == d);
    lemma_tr_lower_clear();
    lemma_clear_row(d, d.lower, none_besides());
    lemma_tr_upper_clear();
    lemma_clear_row(d, d.upper, none_besides());
    lemma_spells(d);
}

/// Whether spaces and other characters take turns in the first `n` characters of
/// a row.
spec fn takes_turns(row: Seq<char>, n: int) -> bool
    decreases n,
{
    n <= 0 || ((row[n - 1] == ' ' <==> n % 2 == 0) && takes_turns(row, n - 1))
}

proof fn lemma_takes_turns(row: Seq<char>, m: nat)
    requires
        m >= 1,
        row.len() == 2 * m - 1,
        takes_turns(row, row.len() as int),
    ensures
        layout::tokens(row).len() == m,
        forall|i: int|
            0 <= i < m ==> (#[trigger] layout::tokens(row)[i]).len() == 1 && layout::tokens(row)[i][0]
                == row[2 * i],
    decreases m,
{
    let n = row.len() as int;
    let head = row.drop_last();
    let tail = row.last();
    if m == 1 {
        assert(head =~= Seq::<char>::empty());
        assert(text::pieces(head, ' ') =~= seq![Seq::<char>::empty()]);
        assert(layout::tokens(row) =~= seq![Seq::<char>::empty().push(tail)]);
    } else {
        let before = head.drop_last();
        assert(takes_turns(row, n - 1));
        assert(takes_turns(row, n - 2));
        lemma_takes_turns_prefix(row, before, n - 2);
        lemma_takes_turns(before, (m - 1) as nat);
        let p = layout::tokens(before);
        assert(head.last() == ' ');
        assert(layout::tokens(head) == p.push(Seq::empty()));
        assert(layout::tokens(row) =~= p.push(Seq::<char>::empty().push(tail)));
        assert forall|i: int| 0 <= i < m implies (#[trigger] layout::tokens(row)[i]).len() == 1
            && layout::tokens(row)[i][0] == row[2 * i] by {
            if i < m - 1 {
                assert(layout::tokens(row)[i] == p[i]);
                assert(before[2 * i] == row[2 * i]);
            }
        }
    }
}

proof fn lemma_takes_turns_prefix(a: Seq<char>, b: Seq<char>, n: int)
    requires
        n <= a.len(),
        n <= b.len(),
        forall|i: int| 0 <= i < n ==> a[i] == b[i],
        takes_turns(a, n),
    ensures
        takes_turns(b, n),
    decreases n,
{
    if n > 0 {
        lemma_takes_turns_prefix(a, b, n - 1);
    }
}

/// The character of a slot, by the rows of its layout.
spec fn slot_char(lower: Seq<char>, upper: Seq<char>, j: int) -> char {
    if j % 2 == 0 {
        lower[j]
    } else {
        upper[j - 1]
    }
}

/// The slot of a character on the US layout.
pub open spec fn us_home() -> spec_fn(char) -> int {
    |c: char|
        match c {
            '`' => 0,
            '~' => 1,
            '1' => 2,
            '!' => 3,
            '2' => 4,
            '@' => 5,
            '3' => 6,
            '#' => 7,
            '4' => 8,
            '$' => 9,
            '5' => 10,
            '%' => 11,
            '6' => 12,
            '^' => 13,
            '7' => 14,
            '&' => 15,
            '8' => 16,
            '*' => 17,
            '9' => 18,
            '(' => 19,
            '0' => 20,
            ')' => 21,
            '-' => 22,
            '_' => 23,
            '=' => 24,
            '+' => 25,
            'q' => 26,
            'Q' => 27,
            'w' => 28,
            'W' => 29,
            'e' => 30,
            'E' => 31,
            'r' => 32,
            'R' => 33,
            't' => 34,
            'T' => 35,
            'y' => 36,
            'Y' => 37,
            'u' => 38,
            'U' => 39,
            'i' => 40,
            'I' => 41,
            'o' => 42,
            'O' => 43,
            'p' => 44,
            'P' => 45,
            '[' => 46,
            '{' => 47,
            ']' => 48,
            '}' => 49,
            '\\' => 50,
            '|' => 51,
            'a' => 52,
            'A' => 53,
            's' => 54,
            'S' => 55,
            'd' => 56,
            'D' => 57,
            'f' => 58,
            'F' => 59,
            'g' => 60,
            'G' => 61,
            'h' => 62,
            'H' => 63,
            'j' => 64,
            'J' => 65,
            'k' => 66,
            'K' => 67,
            'l' => 68,
            'L' => 69,
            ';' => 70,
            ':' => 71,
            '\'' => 72,
            '"' => 73,
            'z' => 74,
            'Z' => 75,
            'x' => 76,
            'X' => 77,
            'c' => 78,
            'C' => 79,
            'v' => 80,
            'V' => 81,
            'b' => 82,
            'B' => 83,
            'n' => 84,
            'N' => 85,
            'm' => 86,
            'M' => 87,
            ',' => 88,
            '<' => 89,
            '.' => 90,
            '>' => 91,
            '/' => 92,
            '?' => 93,
            _ => -1int,
        }
}

/// Whether `home` names the slot of each character of the first `n` slots.
spec fn placed(home: spec_fn(char) -> int, lower: Seq<char>, upper: Seq<char>, n: int) -> bool
    decreases n,
{
    n <= 0 || (home(slot_char(lower, upper, n - 1)) == n - 1 && placed(home, lower, upper, n - 1))
}

proof fn lemma_placed_at(
    home: spec_fn(char) -> int,
    lower: Seq<char>,
    upper: Seq<char>,
    n: int,
    j: int,
)
    requires
        placed(home, lower, upper, n),
        0 <= j < n,
    ensures
        home(slot_char(lower, upper, j)) == j,
    decreases n,
{
    if j < n - 1 {
        lemma_placed_at(home, lower, upper, n - 1, j);
    }
}

#[verifier::rlimit(60)]
proof fn lemma_us_placed()
    ensures
        placed(us_home(), tables::US_LOWER@, tables::US_UPPER@, 94),
{
    reveal_strlit("` 1 2 3 4 5 6 7 8 9 0 - = q w e r t y u i o p [ ] \\ a s d f g h j k l ; ' z x c v b n m , . /");
    reveal_strlit("~ ! @ # $ % ^ & * ( ) _ + Q W E R T Y U I O P { } | A S D F G H J K L : \" Z X C V B N M < > ?");
    reveal_with_fuel(placed, 26);
    assert(placed(us_home(), tables::US_LOWER@, tables::US_UPPER@, 24));
    assert(placed(us_home(), tables::US_LOWER@, tables::US_UPPER@, 48));
    assert(placed(us_home(), tables::US_LOWER@, tables::US_UPPER@, 72));
}

proof fn lemma_us_differs(j: int, k: int)
    requires
        0 <= j < k < 94,
    ensures
        slot_char(tables::US_LOWER@, tables::US_UPPER@, j) != slot_char(
            tables::US_LOWER@,
            tables::US_UPPER@,
            k,
        ),
{
    lemma_us_placed();
    lemma_placed_at(us_home(), tables::US_LOWER@, tables::US_UPPER@, 94, j);
    lemma_placed_at(us_home(), tables::US_LOWER@, tables::US_UPPER@, 94, k);
}

/// On the US layout every key produces one character, each another one.
pub proof fn lemma_us_is_plain()
    ensures
        retyping::plain(layout::board_of(tables::us())),
{
    let d = tables::us();
    let b = layout::board_of(d);
    layout::lemma_known_layouts_complete(0);
    assert(tables::known()[0] == d);
    assert(d.lower.len() == 93 && takes_turns(d.lower, 93)) by {
        reveal_strlit("` 1 2 3 4 5 6 7 8 9 0 - = q w e r t y u i o p [ ] \\ a s d f g h j k l ; ' z x c v b n m , . /");
        reveal_with_fuel(takes_turns, 100);
    }
    assert(d.upper.len() == 93 && takes_turns(d.upper, 93)) by {
        reveal_strlit("~ ! @ # $ % ^ & * ( ) _ + Q W E R T Y U I O P { } | A S D F G H J K L : \" Z X C V B N M < > ?");
        reveal_with_fuel(takes_turns, 100);
    }
    lemma_takes_turns(d.lower, 47);
    lemma_takes_turns(d.upper, 47);
    assert forall|j: int| 0 <= j < b.slots.len() implies (#[trigger] b.slots[j]).len() == 1
        && b.slots[j][0] == slot_char(d.lower, d.upper, j) by {
        let row = row_of(d, j);
        assert(layout::tokens(row)[j / 2].len() == 1);
        lemma_single_product(layout::tokens(row)[j / 2], layout::tokens(row)[j / 2][0]);
        assert(b.slots[j] == layout::product(layout::tokens(row)[j / 2]));
    }
    assert forall|j: int, k: int|
        0 <= j < b.slots.len() && 0 <= k < b.slots.len() && j != k implies (
    #[trigger] b.slots[j])[0] != (#[trigger] b.slots[k])[0] by {
        if j < k {
            lemma_us_differs(j, k);
        } else {
            lemma_us_differs(k, j);
        }
    }
}

/// On the US layout each slot produces the one character whose slot it is.
pub proof fn lemma_us_slots(j: int)
    requires
        0 <= j < 94,
    ensures
        ({
            let b = layout::board_of(tables::us());
            &&& b.slots.len() == 94
            &&& b.slots[j].len() == 1
            &&& us_home()(b.slots[j][0]) == j
            &&& b.key(b.slots[j][0]) == Some(j)
        }),
{
    let d = tables::us();
    let b = layout::board_of(d);
    layout::lemma_known_layouts_complete(0);
    assert(tables::known()[0] == d);
    lemma_us_placed();
    lemma_placed_at(us_home(), d.lower, d.upper, 94, j);
    assert(d.lower.len() == 93 && takes_turns(d.lower, 93)) by {
        reveal_strlit("` 1 2 3 4 5 6 7 8 9 0 - = q w e r t y u i o p [ ] \\ a s d f g h j k l ; ' z x c v b n m , . /");
        reveal_with_fuel(takes_turns, 100);
    }
    assert(d.upper.len() == 93 && takes_turns(d.upper, 93)) by {
        reveal_strlit("~ ! @ # $ % ^ & * ( ) _ + Q W E R T Y U I O P { } | A S D F G H J K L : \" Z X C V B N M < > ?");
        reveal_with_fuel(takes_turns, 100);
    }
    lemma_takes_turns(d.lower, 47);
    lemma_takes_turns(d.upper, 47);
    let row = row_of(d, j);
    assert(layout::tokens(row)[j / 2].len() == 1);
    lemma_single_product(layout::tokens(row)[j / 2], layout::tokens(row)[j / 2][0]);
    assert(b.slots[j] == layout::product(layout::tokens(row)[j / 2]));
    let c = b.slots[j][0];
    lemma_us_is_plain();
    layout::lemma_letter_slot(b.slots, c, 0);
}

/// On every layout in the tables, each character that a key produces has a key of
/// its own, which is no dead key but for the characters of dead keys.
pub proof fn lemma_every_layout_spells(i: int)
    requires
        0 <= i < tables::known().len(),
    ensures
        retyping::spells(layout::board_of(tables::known()[i])),
        retyping::lettered(layout::board_of(tables::known()[i])),
{
    lemma_us_spells();
    lemma_ru_spells();
    lemma_uk_spells();
    lemma_he_spells();
    lemma_ar_spells();
    lemma_el_spells();
    lemma_de_spells();
    lemma_fr_spells();
    lemma_es_spells();
    lemma_tr_spells();
}

/// Text re-typed from the US layout on any layout in the tables is a fixed point:
/// going back and forth again leaves it as it is. This leaves out only text that
/// presses dead keys of the other layout, or that the US layout cannot type where
/// the other layout has dead keys.
pub proof fn lemma_fixed_point_for_every_layout(s: Seq<char>, i: int)
    requires
        0 <= i < tables::known().len(),
        retyping::convertible(
            s,
            layout::board_of(tables::us()),
            layout::board_of(tables::known()[i]),
        ),
    ensures
        ({
            let us = layout::board_of(tables::us());
            let other = layout::board_of(tables::known()[i]);
            let once = layout::converted(s, us, other);
            layout::converted(layout::converted(once, other, us), us, other) == once
        }),
{
    lemma_us_is_plain();
    lemma_every_layout_spells(i);
    retyping::lemma_foreign_text_is_a_fixed_point(
        s,
        layout::board_of(tables::us()),
        layout::board_of(tables::known()[i]),
    );
}

/// On every layout in the tables, the key that is found for a character types that
/// character and nothing else.
pub proof fn lemma_the_key_types_the_character(i: int, c: char)
    requires
        0 <= i < tables::known().len(),
    ensures
        layout::board_of(tables::known()[i]).key(c) matches Some(j) ==> 0 <= j < 2
            * layout::KEY_COUNT && layout::board_of(tables::known()[i]).slots[j] == seq![c],
{
    let b = layout::board_of(tables::known()[i]);
    lemma_every_layout_spells(i);
    layout::lemma_letter_slot(b.slots, c, 0);
    layout::lemma_ligature_slot(b.slots, c, 0);
    if let Some(j) = b.key(c) {
        if layout::letter_slot(b.slots, c, 0) is None {
            assert(b.slots[j][0] == c);
        }
        assert(b.slots[j] =~= seq![c]);
    }
}

/// Whether a key has a letter on the US layout.
pub open spec fn letter_key(k: int) -> bool {
    13 <= k <= 22 || 26 <= k <= 34 || 37 <= k <= 43
}

/// Whether, by the rows of a layout, the first place of each character on a letter
/// key, with shift or else only without it, is the one that `home` names, up to
/// slot `n`, and none of these characters is one of a dead key.
spec fn settled(
    home: spec_fn(char) -> int,
    dead: spec_fn(char) -> bool,
    shifted: bool,
    lower: Seq<char>,
    upper: Seq<char>,
    n: int,
) -> bool
    decreases n,
{
    n <= 0 || {
        let c = slot_char(lower, upper, n - 1);
        &&& home(c) <= n - 1
        &&& letter_key((n - 1) / 2) && (shifted || n % 2 == 1) ==> home(c) == n - 1
        &&& letter_key((n - 1) / 2) ==> !dead(c)
        &&& settled(home, dead, shifted, lower, upper, n - 1)
    }
}

proof fn lemma_settled(
    home: spec_fn(char) -> int,
    dead: spec_fn(char) -> bool,
    shifted: bool,
    lower: Seq<char>,
    upper: Seq<char>,
    n: int,
    j: int,
)
    requires
        settled(home, dead, shifted, lower, upper, n),
        0 <= j < n,
    ensures
        home(slot_char(lower, upper, j)) <= j,
        letter_key(j / 2) && (shifted || j % 2 == 0) ==> home(slot_char(lower, upper, j)) == j,
        letter_key(j / 2) ==> !dead(slot_char(lower, upper, j)),
    decreases n,
{
    if j < n - 1 {
        lemma_settled(home, dead, shifted, lower, upper, n - 1, j);
    }
}

/// A letter key types one character, has it first, and is no dead key.
pub open spec fn faithful(b: Board, j: int) -> bool {
    b.slots[j].len() == 1 && b.key(b.slots[j][0]) == Some(j) && b.mark(j) is None
}

/// The keys of US letters press no dead key of a layout, and type letters that no
/// earlier key types, with shift or else only without it.
proof fn lemma_letter_keys(
    d: Def,
    upper: Seq<char>,
    home: spec_fn(char) -> int,
    dead: spec_fn(char) -> bool,
    shifted: bool,
)
    requires
        layout::complete(d),
        d.lower.len() == 93,
        takes_turns(d.lower, 93),
        forall|i: int|
            1 <= i < 47 ==> (#[trigger] layout::tokens(d.upper)[i]).len() == 1 && layout::tokens(
                d.upper,
            )[i][0] == upper[2 * i],
        layout::product(layout::tokens(d.upper)[0]).len() == 1 ==> layout::product(
            layout::tokens(d.upper)[0],
        )[0] == upper[0],
        settled(home, dead, shifted, d.lower, upper, 88),
        forall|m: int| 0 <= m < d.dead.len() ==> dead((#[trigger] d.dead[m]).1),
    ensures
        forall|j: int|
            0 <= j < 88 && letter_key(j / 2) ==> (#[trigger] layout::board_of(d).mark(j)) is None,
        forall|j: int|
            0 <= j < 88 && letter_key(j / 2) && (shifted || j % 2 == 0) ==> #[trigger] faithful(
                layout::board_of(d),
                j,
            ),
{
    let b = layout::board_of(d);
    lemma_takes_turns(d.lower, 47);
    assert forall|j: int| 0 <= j < 88 && b.slots[j].len() == 1 implies #[trigger] b.slots[j][0]
        == slot_char(d.lower, upper, j) by {
        lemma_slot(d, upper, j);
    }
    assert forall|j: int| 0 <= j < 88 && letter_key(j / 2) implies (#[trigger] b.mark(
        j,
    )) is None && b.slots[j].len() == 1 by {
        lemma_slot(d, upper, j);
        if b.mark(j) is Some {
            lemma_mark_among(b, j, b.dead.len() as int);
            let i = choose|i: int| 0 <= i < b.dead.len() && (#[trigger] b.dead[i]).1 == j;
            lemma_dead_slots(b.slots, d.dead, i);
            let m = choose|m: int|
                0 <= m < d.dead.len() && layout::slot_for(b.slots, (#[trigger] d.dead[m]).1)
                    == Some(j);
            layout::lemma_slot_for(b.slots, d.dead[m].1);
            lemma_settled(home, dead, shifted, d.lower, upper, 88, j);
        }
    }
    assert forall|j: int|
        0 <= j < 88 && letter_key(j / 2) && (shifted || j % 2 == 0) implies #[trigger] faithful(
        b,
        j,
    ) by {
        let c = slot_char(d.lower, upper, j);
        assert(b.mark(j) is None);
        assert(b.slots[j][0] == c);
        layout::lemma_letter_slot(b.slots, c, 0);
        let first = layout::letter_slot(b.slots, c, 0)->0;
        lemma_settled(home, dead, shifted, d.lower, upper, 88, j);
        lemma_settled(home, dead, shifted, d.lower, upper, 88, first);
        assert(b.slots[first][0] == c);
    }
}

proof fn lemma_slot(d: Def, upper: Seq<char>, j: int)
    requires
        layout::complete(d),
        d.lower.len() == 93,
        takes_turns(d.lower, 93),
        forall|i: int|
            1 <= i < 47 ==> (#[trigger] layout::tokens(d.upper)[i]).len() == 1 && layout::tokens(
                d.upper,
            )[i][0] == upper[2 * i],
        layout::product(layout::tokens(d.upper)[0]).len() == 1 ==> layout::product(
            layout::tokens(d.upper)[0],
        )[0] == upper[0],
        0 <= j < 88,
    ensures
        j != 1 ==> layout::board_of(d).slots[j].len() == 1,
        layout::board_of(d).slots[j].len() == 1 ==> layout::board_of(d).slots[j][0] == slot_char(
            d.lower,
            upper,
            j,
        ),
{
    let b = layout::board_of(d);
    lemma_takes_turns(d.lower, 47);
    let row = row_of(d, j);
    let token = layout::tokens(row)[j / 2];
    assert(b.slots[j] == layout::product(token));
    if j != 1 {
        assert(token.len() == 1);
        lemma_single_product(token, token[0]);
        if j % 2 == 0 {
            assert(2 * (j / 2) == j);
        } else {
            assert(2 * (j / 2) == j - 1);
        }
    }
}

/// The tokens of a row in which spaces and characters take turns.
proof fn lemma_turns_fit(upper: Seq<char>)
    requires
        upper.len() == 93,
        takes_turns(upper, 93),
    ensures
        forall|i: int|
            1 <= i < 47 ==> (#[trigger] layout::tokens(upper)[i]).len() == 1 && layout::tokens(
                upper,
            )[i][0] == upper[2 * i],
        layout::product(layout::tokens(upper)[0]).len() == 1,
        layout::product(layout::tokens(upper)[0])[0] == upper[0],
{
    lemma_takes_turns(upper, 47);
    let token = layout::tokens(upper)[0];
    assert(token.len() == 1 && token[0] == upper[0]);
    lemma_single_product(token, token[0]);
}

/// The pieces of two texts with a separator between them.
proof fn lemma_pieces_joined(head: Seq<char>, rest: Seq<char>, separator: char)
    requires
        text::pieces(head, separator) == seq![head],
    ensures
        text::pieces(head.push(separator) + rest, separator) == seq![head] + text::pieces(
            rest,
            separator,
        ),
    decreases rest.len(),
{
    let all = head.push(separator) + rest;
    if rest.len() == 0 {
        assert(all =~= head.push(separator));
        assert(all.drop_last() =~= head);
        assert(text::pieces(all, separator) =~= seq![head] + seq![Seq::<char>::empty()]);
    } else {
        let before = rest.drop_last();
        lemma_pieces_joined(head, before, separator);
        text::lemma_pieces_nonempty(before, separator);
        assert(all.drop_last() =~= head.push(separator) + before);
        assert(all.last() == rest.last());
        let p = text::pieces(before, separator);
        assert((seq![head] + p).last() == p.last());
        assert((seq![head] + p).drop_last() =~= seq![head] + p.drop_last());
        assert(text::pieces(all, separator) =~= seq![head] + text::pieces(rest, separator));
    }
}

/// Where the letter keys of `ru` have their characters first.
spec fn ru_home() -> spec_fn(char) -> int {
    |c: char|
        match c {
            'й' => 26,
            'Й' => 27,
            'ц' => 28,
            'Ц' => 29,
            'у' => 30,
            'У' => 31,
            'к' => 32,
            'К' => 33,
            'е' => 34,
            'Е' => 35,
            'н' => 36,
            'Н' => 37,
            'г' => 38,
            'Г' => 39,
            'ш' => 40,
            'Ш' => 41,
            'щ' => 42,
            'Щ' => 43,
            'з' => 44,
            'З' => 45,
            'ф' => 52,
            'Ф' => 53,
            'ы' => 54,
            'Ы' => 55,
            'в' => 56,
            'В' => 57,
            'а' => 58,
            'А' => 59,
            'п' => 60,
            'П' => 61,
            'р' => 62,
            'Р' => 63,
            'о' => 64,
            'О' => 65,
            'л' => 66,
            'Л' => 67,
            'д' => 68,
            'Д' => 69,
            'я' => 74,
            'Я' => 75,
            'ч' => 76,
            'Ч' => 77,
            'с' => 78,
            'С' => 79,
            'м' => 80,
            'М' => 81,
            'и' => 82,
            'И' => 83,
            'т' => 84,
            'Т' => 85,
            'ь' => 86,
            'Ь' => 87,
            _ => -1int,
        }
}

spec fn ru_dead() -> spec_fn(char) -> bool {
    |c: char| false
}

#[verifier::rlimit(60)]
proof fn lemma_ru_settled()
    ensures
        settled(ru_home(), ru_dead(), true, tables::RU_LOWER@, tables::RU_UPPER@, 88),
{
    reveal_strlit("ё 1 2 3 4 5 6 7 8 9 0 - = й ц у к е н г ш щ з х ъ \\ ф ы в а п р о л д ж э я ч с м и т ь б ю .");
    reveal_strlit("Ё ! \" № ; % : ? * ( ) _ + Й Ц У К Е Н Г Ш Щ З Х Ъ / Ф Ы В А П Р О Л Д Ж Э Я Ч С М И Т Ь Б Ю ,");
    reveal_with_fuel(settled, 24);
    assert(settled(ru_home(), ru_dead(), true, tables::RU_LOWER@, tables::RU_UPPER@, 22));
    assert(settled(ru_home(), ru_dead(), true, tables::RU_LOWER@, tables::RU_UPPER@, 44));
    assert(settled(ru_home(), ru_dead(), true, tables::RU_LOWER@, tables::RU_UPPER@, 66));
}

proof fn lemma_ru_letters()
    ensures
        forall|j: int|
            0 <= j < 88 && letter_key(j / 2) ==> (#[trigger] layout::board_of(tables::ru()).mark(
                j,
            )) is None,
        forall|j: int|
            0 <= j < 88 && letter_key(j / 2) ==> #[trigger] faithful(
                layout::board_of(tables::ru()),
                j,
            ),
{
    let d = tables::ru();
    layout::lemma_known_layouts_complete(1);
    assert(tables::known()[1] == d);
    assert(d.lower.len() == 93 && takes_turns(d.lower, 93)) by {
        reveal_strlit("ё 1 2 3 4 5 6 7 8 9 0 - = й ц у к е н г ш щ з х ъ \\ ф ы в а п р о л д ж э я ч с м и т ь б ю .");
        reveal_with_fuel(takes_turns, 100);
    }
    assert(d.upper.len() == 93 && takes_turns(d.upper, 93)) by {
        reveal_strlit("Ё ! \" № ; % : ? * ( ) _ + Й Ц У К Е Н Г Ш Щ З Х Ъ / Ф Ы В А П Р О Л Д Ж Э Я Ч С М И Т Ь Б Ю ,");
        reveal_with_fuel(takes_turns, 100);
    }
    lemma_turns_fit(d.upper);
    lemma_ru_settled();
    lemma_letter_keys(d, d.upper, ru_home(), ru_dead(), true);
}

/// Where the letter keys of `uk` have their characters first.
spec fn uk_home() -> spec_fn(char) -> int {
    |c: char|
        match c {
            'й' => 26,
            'Й' => 27,
            'ц' => 28,
            'Ц' => 29,
            'у' => 30,
            'У' => 31,
            'к' => 32,
            'К' => 33,
            'е' => 34,
            'Е' => 35,
            'н' => 36,
            'Н' => 37,
            'г' => 38,
            'Г' => 39,
            'ш' => 40,
            'Ш' => 41,
            'щ' => 42,
            'Щ' => 43,
            'з' => 44,
            'З' => 45,
            'ф' => 52,
            'Ф' => 53,
            'і' => 54,
            'І' => 55,
            'в' => 56,
            'В' => 57,
            'а' => 58,
            'А' => 59,
            'п' => 60,
            'П' => 61,
            'р' => 62,
            'Р' => 63,
            'о' => 64,
            'О' => 65,
            'л' => 66,
            'Л' => 67,
            'д' => 68,
            'Д' => 69,
            'я' => 74,
            'Я' => 75,
            'ч' => 76,
            'Ч' => 77,
            'с' => 78,
            'С' => 79,
            'м' => 80,
            'М' => 81,
            'и' => 82,
            'И' => 83,
            'т' => 84,
            'Т' => 85,
            'ь' => 86,
            'Ь' => 87,
            _ => -1int,
        }
}

spec fn uk_dead() -> spec_fn(char) -> bool {
    |c: char| false
}

#[verifier::rlimit(60)]
proof fn lemma_uk_settled()
    ensures
        settled(uk_home(), uk_dead(), true, tables::UK_LOWER@, tables::UK_UPPER@, 88),
{
    reveal_strlit("' 1 2 3 4 5 6 7 8 9 0 - = й ц у к е н г ш щ з х ї ґ ф і в а п р о л д ж є я ч с м и т ь б ю .");
    reveal_strlit("₴ ! \" № ; % : ? * ( ) _ + Й Ц У К Е Н Г Ш Щ З Х Ї Ґ Ф І В А П Р О Л Д Ж Є Я Ч С М И Т Ь Б Ю ,");
    reveal_with_fuel(settled, 24);
    assert(settled(uk_home(), uk_dead(), true, tables::UK_LOWER@, tables::UK_UPPER@, 22));
    assert(settled(uk_home(), uk_dead(), true, tables::UK_LOWER@, tables::UK_UPPER@, 44));
    assert(settled(uk_home(), uk_dead(), true, tables::UK_LOWER@, tables::UK_UPPER@, 66));
}

proof fn lemma_uk_letters()
    ensures
        forall|j: int|
            0 <= j < 88 && letter_key(j / 2) ==> (#[trigger] layout::board_of(tables::uk()).mark(
                j,
            )) is None,
        forall|j: int|
            0 <= j < 88 && letter_key(j / 2) ==> #[trigger] faithful(
                layout::board_of(tables::uk()),
                j,
            ),
{
    let d = tables::uk();
    layout::lemma_known_layouts_complete(2);
    assert(tables::known()[2] == d);
    assert(d.lower.len() == 93 && takes_turns(d.lower, 93)) by {
        reveal_strlit("' 1 2 3 4 5 6 7 8 9 0 - = й ц у к е н г ш щ з х ї ґ ф і в а п р о л д ж є я ч с м и т ь б ю .");
        reveal_with_fuel(takes_turns, 100);
    }
    assert(d.upper.len() == 93 && takes_turns(d.upper, 93)) by {
        reveal_strlit("₴ ! \" № ; % : ? * ( ) _ + Й Ц У К Е Н Г Ш Щ З Х Ї Ґ Ф І В А П Р О Л Д Ж Є Я Ч С М И Т Ь Б Ю ,");
        reveal_with_fuel(takes_turns, 100);
    }
    lemma_turns_fit(d.upper);
    lemma_uk_settled();
    lemma_letter_keys(d, d.upper, uk_home(), uk_dead(), true);
}

/// Where the letter keys of `he` have their characters first.
spec fn he_home() -> spec_fn(char) -> int {
    |c: char|
        match c {
            '/' => 26,
            '\'' => 28,
            'ק' => 30,
            'ר' => 32,
            'א' => 34,
            'ט' => 36,
            'ו' => 38,
            'ן' => 40,
            'ם' => 42,
            'פ' => 44,
            'ש' => 52,
            'ד' => 54,
            'ג' => 56,
            'כ' => 58,
            'ע' => 60,
            'י' => 62,
            'ח' => 64,
            'ל' => 66,
            'ך' => 68,
            'ז' => 74,
            'ס' => 76,
            'ב' => 78,
            'ה' => 80,
            'נ' => 82,
            'מ' => 84,
            'צ' => 86,
            _ => -1int,
        }
}

spec fn he_dead() -> spec_fn(char) -> bool {
    |c: char| false
}

#[verifier::rlimit(60)]
proof fn lemma_he_settled()
    ensures
        settled(he_home(), he_dead(), false, tables::HE_LOWER@, tables::HE_UPPER@, 88),
{
    reveal_strlit("; 1 2 3 4 5 6 7 8 9 0 - = / ' ק ר א ט ו ן ם פ ] [ \\ ש ד ג כ ע י ח ל ך ף , ז ס ב ה נ מ צ ת ץ .");
    reveal_strlit("~ ! @ # $ % ^ & * ( ) _ + Q W ק ר א ט ו ן ם פ } { | ש ד ג כ ע י ח ל ך ף \" ז ס ב ה נ מ צ ת ץ ?");
    reveal_with_fuel(settled, 24);
    assert(settled(he_home(), he_dead(), false, tables::HE_LOWER@, tables::HE_UPPER@, 22));
    assert(settled(he_home(), he_dead(), false, tables::HE_LOWER@, tables::HE_UPPER@, 44));
    assert(settled(he_home(), he_dead(), false, tables::HE_LOWER@, tables::HE_UPPER@, 66));
}

proof fn lemma_he_letters()
    ensures
        forall|j: int|
            0 <= j < 88 && letter_key(j / 2) ==> (#[trigger] layout::board_of(tables::he()).mark(
                j,
            )) is None,
        forall|j: int|
            0 <= j < 88 && letter_key(j / 2) && j % 2 == 0 ==> #[trigger] faithful(
                layout::board_of(tables::he()),
                j,
            ),
{
    let d = tables::he();
    layout::lemma_known_layouts_complete(3);
    assert(tables::known()[3] == d);
    assert(d.lower.len() == 93 && takes_turns(d.lower, 93)) by {
        reveal_strlit("; 1 2 3 4 5 6 7 8 9 0 - = / ' ק ר א ט ו ן ם פ ] [ \\ ש ד ג כ ע י ח ל ך ף , ז ס ב ה נ מ צ ת ץ .");
        reveal_with_fuel(takes_turns, 100);
    }
    assert(d.upper.len() == 93 && takes_turns(d.upper, 93)) by {
        reveal_strlit("~ ! @ # $ % ^ & * ( ) _ + Q W ק ר א ט ו ן ם פ } { | ש ד ג כ ע י ח ל ך ף \" ז ס ב ה נ מ צ ת ץ ?");
        reveal_with_fuel(takes_turns, 100);
    }
    lemma_turns_fit(d.upper);
    lemma_he_settled();
    lemma_letter_keys(d, d.upper, he_home(), he_dead(), false);
}

/// Where the letter keys of `el` have their characters first.
spec fn el_home() -> spec_fn(char) -> int {
    |c: char|
        match c {
            ';' => 26,
            'ς' => 28,
            'ε' => 30,
            'ρ' => 32,
            'τ' => 34,
            'υ' => 36,
            'θ' => 38,
            'ι' => 40,
            'ο' => 42,
            'π' => 44,
            'α' => 52,
            'σ' => 54,
            'δ' => 56,
            'φ' => 58,
            'γ' => 60,
            'η' => 62,
            'ξ' => 64,
            'κ' => 66,
            'λ' => 68,
            'ζ' => 74,
            'χ' => 76,
            'ψ' => 78,
            'ω' => 80,
            'β' => 82,
            'ν' => 84,
            'μ' => 86,
            _ => -1int,
        }
}

spec fn el_dead() -> spec_fn(char) -> bool {
    |c: char| c == '\u{384}' || c == '\u{a8}'
}

#[verifier::rlimit(60)]
proof fn lemma_el_settled()
    ensures
        settled(el_home(), el_dead(), false, tables::EL_LOWER@, tables::EL_UPPER@, 88),
{
    reveal_strlit("` 1 2 3 4 5 6 7 8 9 0 - = ; ς ε ρ τ υ θ ι ο π [ ] \\ α σ δ φ γ η ξ κ λ ΄ ' ζ χ ψ ω β ν μ , . /");
    reveal_strlit("~ ! @ # $ % ^ & * ( ) _ + : Σ Ε Ρ Τ Υ Θ Ι Ο Π { } | Α Σ Δ Φ Γ Η Ξ Κ Λ ¨ \" Ζ Χ Ψ Ω Β Ν Μ < > ?");
    reveal_with_fuel(settled, 24);
    assert(settled(el_home(), el_dead(), false, tables::EL_LOWER@, tables::EL_UPPER@, 22));
    assert(settled(el_home(), el_dead(), false, tables::EL_LOWER@, tables::EL_UPPER@, 44));
    assert(settled(el_home(), el_dead(), false, tables::EL_LOWER@, tables::EL_UPPER@, 66));
}

proof fn lemma_el_letters()
    ensures
        forall|j: int|
            0 <= j < 88 && letter_key(j / 2) ==> (#[trigger] layout::board_of(tables::el()).mark(
                j,
            )) is None,
        forall|j: int|
            0 <= j < 88 && letter_key(j / 2) && j % 2 == 0 ==> #[trigger] faithful(
                layout::board_of(tables::el()),
                j,
            ),
{
    let d = tables::el();
    layout::lemma_known_layouts_complete(5);
    assert(tables::known()[5] == d);
    assert(d.lower.len() == 93 && takes_turns(d.lower, 93)) by {
        reveal_strlit("` 1 2 3 4 5 6 7 8 9 0 - = ; ς ε ρ τ υ θ ι ο π [ ] \\ α σ δ φ γ η ξ κ λ ΄ ' ζ χ ψ ω β ν μ , . /");
        reveal_with_fuel(takes_turns, 100);
    }
    assert(d.upper.len() == 93 && takes_turns(d.upper, 93)) by {
        reveal_strlit("~ ! @ # $ % ^ & * ( ) _ + : Σ Ε Ρ Τ Υ Θ Ι Ο Π { } | Α Σ Δ Φ Γ Η Ξ Κ Λ ¨ \" Ζ Χ Ψ Ω Β Ν Μ < > ?");
        reveal_with_fuel(takes_turns, 100);
    }
    lemma_turns_fit(d.upper);
    lemma_el_settled();
    lemma_letter_keys(d, d.upper, el_home(), el_dead(), false);
}

/// Where the letter keys of `de` have their characters first.
spec fn de_home() -> spec_fn(char) -> int {
    |c: char|
        match c {
            'q' => 26,
            'Q' => 27,
            'w' => 28,
            'W' => 29,
            'e' => 30,
            'E' => 31,
            'r' => 32,
            'R' => 33,
            't' => 34,
            'T' => 35,
            'z' => 36,
            'Z' => 37,
            'u' => 38,
            'U' => 39,
            'i' => 40,
            'I' => 41,
            'o' => 42,
            'O' => 43,
            'p' => 44,
            'P' => 45,
            'a' => 52,
            'A' => 53,
            's' => 54,
            'S' => 55,
            'd' => 56,
            'D' => 57,
            'f' => 58,
            'F' => 59,
            'g' => 60,
            'G' => 61,
            'h' => 62,
            'H' => 63,
            'j' => 64,
            'J' => 65,
            'k' => 66,
            'K' => 67,
            'l' => 68,
            'L' => 69,
            'y' => 74,
            'Y' => 75,
            'x' => 76,
            'X' => 77,
            'c' => 78,
            'C' => 79,
            'v' => 80,
            'V' => 81,
            'b' => 82,
            'B' => 83,
            'n' => 84,
            'N' => 85,
            'm' => 86,
            'M' => 87,
            _ => -1int,
        }
}

spec fn de_dead() -> spec_fn(char) -> bool {
    |c: char| c == '\u{b4}' || c == '\u{60}' || c == '\u{5e}'
}

#[verifier::rlimit(60)]
proof fn lemma_de_settled()
    ensures
        settled(de_home(), de_dead(), true, tables::DE_LOWER@, tables::DE_UPPER@, 88),
{
    reveal_strlit("^ 1 2 3 4 5 6 7 8 9 0 ß ´ q w e r t z u i o p ü + # a s d f g h j k l ö ä y x c v b n m , . -");
    reveal_strlit("° ! \" § $ % & / ( ) = ? ` Q W E R T Z U I O P Ü * ' A S D F G H J K L Ö Ä Y X C V B N M ; : _");
    reveal_with_fuel(settled, 24);
    assert(settled(de_home(), de_dead(), true, tables::DE_LOWER@, tables::DE_UPPER@, 22));
    assert(settled(de_home(), de_dead(), true, tables::DE_LOWER@, tables::DE_UPPER@, 44));
    assert(settled(de_home(), de_dead(), true, tables::DE_LOWER@, tables::DE_UPPER@, 66));
}

proof fn lemma_de_letters()
    ensures
        forall|j: int|
            0 <= j < 88 && letter_key(j / 2) ==> (#[trigger] layout::board_of(tables::de()).mark(
                j,
            )) is None,
        forall|j: int|
            0 <= j < 88 && letter_key(j / 2) ==> #[trigger] faithful(
                layout::board_of(tables::de()),
                j,
            ),
{
    let d = tables::de();
    layout::lemma_known_layouts_complete(6);
    assert(tables::known()[6] == d);
    assert(d.lower.len() == 93 && takes_turns(d.lower, 93)) by {
        reveal_strlit("^ 1 2 3 4 5 6 7 8 9 0 ß ´ q w e r t z u i o p ü + # a s d f g h j k l ö ä y x c v b n m , . -");
        reveal_with_fuel(takes_turns, 100);
    }
    assert(d.upper.len() == 93 && takes_turns(d.upper, 93)) by {
        reveal_strlit("° ! \" § $ % & / ( ) = ? ` Q W E R T Z U I O P Ü * ' A S D F G H J K L Ö Ä Y X C V B N M ; : _");
        reveal_with_fuel(takes_turns, 100);
    }
    lemma_turns_fit(d.upper);
    lemma_de_settled();
    lemma_letter_keys(d, d.upper, de_home(), de_dead(), true);
}

/// Where the letter keys of `fr` have their characters first.
spec fn fr_home() -> spec_fn(char) -> int {
    |c: char|
        match c {
            'a' => 26,
            'A' => 27,
            'z' => 28,
            'Z' => 29,
            'e' => 30,
            'E' => 31,
            'r' => 32,
            'R' => 33,
            't' => 34,
            'T' => 35,
            'y' => 36,
            'Y' => 37,
            'u' => 38,
            'U' => 39,
            'i' => 40,
            'I' => 41,
            'o' => 42,
            'O' => 43,
            'p' => 44,
            'P' => 45,
            'q' => 52,
            'Q' => 53,
            's' => 54,
            'S' => 55,
            'd' => 56,
            'D' => 57,
            'f' => 58,
            'F' => 59,
            'g' => 60,
            'G' => 61,
            'h' => 62,
            'H' => 63,
            'j' => 64,
            'J' => 65,
            'k' => 66,
            'K' => 67,
            'l' => 68,
            'L' => 69,
            'w' => 74,
            'W' => 75,
            'x' => 76,
            'X' => 77,
            'c' => 78,
            'C' => 79,
            'v' => 80,
            'V' => 81,
            'b' => 82,
            'B' => 83,
            'n' => 84,
            'N' => 85,
            ',' => 86,
            '?' => 87,
            _ => -1int,
        }
}

spec fn fr_dead() -> spec_fn(char) -> bool {
    |c: char| c == '\u{5e}' || c == '\u{a8}'
}

#[verifier::rlimit(60)]
proof fn lemma_fr_settled()
    ensures
        settled(fr_home(), fr_dead(), true, tables::FR_LOWER@, tables::FR_UPPER@.skip(5), 88),
{
    reveal_strlit("² & é \" ' ( - è _ ç à ) = a z e r t y u i o p ^ $ * q s d f g h j k l m ù w x c v b n , ; : !");
    reveal_strlit("~NONE~ 1 2 3 4 5 6 7 8 9 0 ° + A Z E R T Y U I O P ¨ £ µ Q S D F G H J K L M % W X C V B N ? . / §");
    reveal_with_fuel(settled, 24);
    assert(settled(fr_home(), fr_dead(), true, tables::FR_LOWER@, tables::FR_UPPER@.skip(5), 22));
    assert(settled(fr_home(), fr_dead(), true, tables::FR_LOWER@, tables::FR_UPPER@.skip(5), 44));
    assert(settled(fr_home(), fr_dead(), true, tables::FR_LOWER@, tables::FR_UPPER@.skip(5), 66));
}

proof fn lemma_fr_letters()
    ensures
        forall|j: int|
            0 <= j < 88 && letter_key(j / 2) ==> (#[trigger] layout::board_of(tables::fr()).mark(
                j,
            )) is None,
        forall|j: int|
            0 <= j < 88 && letter_key(j / 2) ==> #[trigger] faithful(
                layout::board_of(tables::fr()),
                j,
            ),
{
    let d = tables::fr();
    layout::lemma_known_layouts_complete(7);
    assert(tables::known()[7] == d);
    assert(d.lower.len() == 93 && takes_turns(d.lower, 93)) by {
        reveal_strlit("² & é \" ' ( - è _ ç à ) = a z e r t y u i o p ^ $ * q s d f g h j k l m ù w x c v b n , ; : !");
        reveal_with_fuel(takes_turns, 100);
    }
    let upper = d.upper.skip(5);
    lemma_fr_upper_fits();
    lemma_fr_settled();
    lemma_letter_keys(d, upper, fr_home(), fr_dead(), true);
}

#[verifier::rlimit(60)]
proof fn lemma_fr_rest_takes_turns()
    ensures
        takes_turns(tables::FR_UPPER@.skip(7), 91),
{
    let rest = tables::FR_UPPER@.skip(7);
    reveal_strlit("~NONE~ 1 2 3 4 5 6 7 8 9 0 ° + A Z E R T Y U I O P ¨ £ µ Q S D F G H J K L M % W X C V B N ? . / §");
    reveal_with_fuel(takes_turns, 32);
    assert(takes_turns(rest, 30));
    assert(takes_turns(rest, 60));
}

proof fn lemma_fr_upper_fits()
    ensures
        ({
            let tokens = layout::tokens(tables::FR_UPPER@);
            let upper = tables::FR_UPPER@.skip(5);
            &&& forall|i: int|
                1 <= i < 47 ==> (#[trigger] tokens[i]).len() == 1 && tokens[i][0] == upper[2 * i]
            &&& layout::product(tokens[0]).len() == 0
        }),
{
    let row = tables::FR_UPPER@;
    let head = row.take(6);
    let rest = row.skip(7);
    assert(row.len() == 98 && head =~= layout::NONE@ && row[6] == ' ') by {
        reveal_strlit("~NONE~ 1 2 3 4 5 6 7 8 9 0 ° + A Z E R T Y U I O P ¨ £ µ Q S D F G H J K L M % W X C V B N ? . / §");
        reveal_strlit("~NONE~");
    }
    assert forall|i: int| 0 <= i < head.len() implies head[i] != ' ' by {
        reveal_strlit("~NONE~");
    }
    text::lemma_only_piece(head, ' ');
    assert(row =~= head.push(' ') + rest);
    lemma_pieces_joined(head, rest, ' ');
    lemma_fr_rest_takes_turns();
    lemma_takes_turns(rest, 46);
    let tokens = layout::tokens(row);
    assert forall|i: int| 1 <= i < 47 implies (#[trigger] tokens[i]).len() == 1 && tokens[i][0]
        == row.skip(5)[2 * i] by {
        assert(tokens[i] == layout::tokens(rest)[i - 1]);
    }
    assert(tokens[0] == head);
}

/// Where the letter keys of `es` have their characters first.
spec fn es_home() -> spec_fn(char) -> int {
    |c: char|
        match c {
            'q' => 26,
            'Q' => 27,
            'w' => 28,
            'W' => 29,
            'e' => 30,
            'E' => 31,
            'r' => 32,
            'R' => 33,
            't' => 34,
            'T' => 35,
            'y' => 36,
            'Y' => 37,
            'u' => 38,
            'U' => 39,
            'i' => 40,
            'I' => 41,
            'o' => 42,
            'O' => 43,
            'p' => 44,
            'P' => 45,
            'a' => 52,
            'A' => 53,
            's' => 54,
            'S' => 55,
            'd' => 56,
            'D' => 57,
            'f' => 58,
            'F' => 59,
            'g' => 60,
            'G' => 61,
            'h' => 62,
            'H' => 63,
            'j' => 64,
            'J' => 65,
            'k' => 66,
            'K' => 67,
            'l' => 68,
            'L' => 69,
            'z' => 74,
            'Z' => 75,
            'x' => 76,
            'X' => 77,
            'c' => 78,
            'C' => 79,
            'v' => 80,
            'V' => 81,
            'b' => 82,
            'B' => 83,
            'n' => 84,
            'N' => 85,
            'm' => 86,
            'M' => 87,
            _ => -1int,
        }
}

spec fn es_dead() -> spec_fn(char) -> bool {
    |c: char| c == '\u{b4}' || c == '\u{a8}' || c == '\u{60}' || c == '\u{5e}'
}

#[verifier::rlimit(60)]
proof fn lemma_es_settled()
    ensures
        settled(es_home(), es_dead(), true, tables::ES_LOWER@, tables::ES_UPPER@, 88),
{
    reveal_strlit("º 1 2 3 4 5 6 7 8 9 0 ' ¡ q w e r t y u i o p ` + ç a s d f g h j k l ñ ´ z x c v b n m , . -");
    reveal_strlit("ª ! \" · $ % & / ( ) = ? ¿ Q W E R T Y U I O P ^ * Ç A S D F G H J K L Ñ ¨ Z X C V B N M ; : _");
    reveal_with_fuel(settled, 24);
    assert(settled(es_home(), es_dead(), true, tables::ES_LOWER@, tables::ES_UPPER@, 22));
    assert(settled(es_home(), es_dead(), true, tables::ES_LOWER@, tables::ES_UPPER@, 44));
    assert(settled(es_home(), es_dead(), true, tables::ES_LOWER@, tables::ES_UPPER@, 66));
}

proof fn lemma_es_letters()
    ensures
        forall|j: int|
            0 <= j < 88 && letter_key(j / 2) ==> (#[trigger] layout::board_of(tables::es()).mark(
                j,
            )) is None,
        forall|j: int|
            0 <= j < 88 && letter_key(j / 2) ==> #[trigger] faithful(
                layout::board_of(tables::es()),
                j,
            ),
{
    let d = tables::es();
    layout::lemma_known_layouts_complete(8);
    assert(tables::known()[8] == d);
    assert(d.lower.len() == 93 && takes_turns(d.lower, 93)) by {
        reveal_strlit("º 1 2 3 4 5 6 7 8 9 0 ' ¡ q w e r t y u i o p ` + ç a s d f g h j k l ñ ´ z x c v b n m , . -");
        reveal_with_fuel(takes_turns, 100);
    }
    assert(d.upper.len() == 93 && takes_turns(d.upper, 93)) by {
        reveal_strlit("ª ! \" · $ % & / ( ) = ? ¿ Q W E R T Y U I O P ^ * Ç A S D F G H J K L Ñ ¨ Z X C V B N M ; : _");
        reveal_with_fuel(takes_turns, 100);
    }
    lemma_turns_fit(d.upper);
    lemma_es_settled();
    lemma_letter_keys(d, d.upper, es_home(), es_dead(), true);
}

/// Where the letter keys of `tr` have their characters first.
spec fn tr_home() -> spec_fn(char) -> int {
    |c: char|
        match c {
            'q' => 26,
            'Q' => 27,
            'w' => 28,
            'W' => 29,
            'e' => 30,
            'E' => 31,
            'r' => 32,
            'R' => 33,
            't' => 34,
            'T' => 35,
            'y' => 36,
            'Y' => 37,
            'u' => 38,
            'U' => 39,
            'ı' => 40,
            'I' => 41,
            'o' => 42,
            'O' => 43,
            'p' => 44,
            'P' => 45,
            'a' => 52,
            'A' => 53,
            's' => 54,
            'S' => 55,
            'd' => 56,
            'D' => 57,
            'f' => 58,
            'F' => 59,
            'g' => 60,
            'G' => 61,
            'h' => 62,
            'H' => 63,
            'j' => 64,
            'J' => 65,
            'k' => 66,
            'K' => 67,
            'l' => 68,
            'L' => 69,
            'z' => 74,
            'Z' => 75,
            'x' => 76,
            'X' => 77,
            'c' => 78,
            'C' => 79,
            'v' => 80,
            'V' => 81,
            'b' => 82,
            'B' => 83,
            'n' => 84,
            'N' => 85,
            'm' => 86,
            'M' => 87,
            _ => -1int,
        }
}

spec fn tr_dead() -> spec_fn(char) -> bool {
    |c: char| false
}

#[verifier::rlimit(60)]
proof fn lemma_tr_settled()
    ensures
        settled(tr_home(), tr_dead(), true, tables::TR_LOWER@, tables::TR_UPPER@, 88),
{
    reveal_strlit("\" 1 2 3 4 5 6 7 8 9 0 * - q w e r t y u ı o p ğ ü , a s d f g h j k l ş i z x c v b n m ö ç .");
    reveal_strlit("é ! ' ^ + % & / ( ) = ? _ Q W E R T Y U I O P Ğ Ü ; A S D F G H J K L Ş İ Z X C V B N M Ö Ç :");
    reveal_with_fuel(settled, 24);
    assert(settled(tr_home(), tr_dead(), true, tables::TR_LOWER@, tables::TR_UPPER@, 22));
    assert(settled(tr_home(), tr_dead(), true, tables::TR_LOWER@, tables::TR_UPPER@, 44));
    assert(settled(tr_home(), tr_dead(), true, tables::TR_LOWER@, tables::TR_UPPER@, 66));
}

proof fn lemma_tr_letters()
    ensures
        forall|j: int|
            0 <= j < 88 && letter_key(j / 2) ==> (#[trigger] layout::board_of(tables::tr()).mark(
                j,
            )) is None,
        forall|j: int|
            0 <= j < 88 && letter_key(j / 2) ==> #[trigger] faithful(
                layout::board_of(tables::tr()),
                j,
            ),
{
    let d = tables::tr();
    layout::lemma_known_layouts_complete(9);
    assert(tables::known()[9] == d);
    assert(d.lower.len() == 93 && takes_turns(d.lower, 93)) by {
        reveal_strlit("\" 1 2 3 4 5 6 7 8 9 0 * - q w e r t y u ı o p ğ ü , a s d f g h j k l ş i z x c v b n m ö ç .");
        reveal_with_fuel(takes_turns, 100);
    }
    assert(d.upper.len() == 93 && takes_turns(d.upper, 93)) by {
        reveal_strlit("é ! ' ^ + % & / ( ) = ? _ Q W E R T Y U I O P Ğ Ü ; A S D F G H J K L Ş İ Z X C V B N M Ö Ç :");
        reveal_with_fuel(takes_turns, 100);
    }
    lemma_turns_fit(d.upper);
    lemma_tr_settled();
    lemma_letter_keys(d, d.upper, tr_home(), tr_dead(), true);
}

/// A letter of the US alphabet without shift.
pub open spec fn small(c: char) -> bool {
    'a' <= c <= 'z'
}

/// A letter of the US alphabet with shift.
pub open spec fn capital(c: char) -> bool {
    'A' <= c <= 'Z'
}

proof fn lemma_us_small(c: char) -> (k: int)
    requires
        small(c),
    ensures
        letter_key(k),
        tables::US_LOWER@[2 * k] == c,
{
    reveal_strlit("` 1 2 3 4 5 6 7 8 9 0 - = q w e r t y u i o p [ ] \\ a s d f g h j k l ; ' z x c v b n m , . /");
    match c {
        'q' => 13,
        'w' => 14,
        'e' => 15,
        'r' => 16,
        't' => 17,
        'y' => 18,
        'u' => 19,
        'i' => 20,
        'o' => 21,
        'p' => 22,
        'a' => 26,
        's' => 27,
        'd' => 28,
        'f' => 29,
        'g' => 30,
        'h' => 31,
        'j' => 32,
        'k' => 33,
        'l' => 34,
        'z' => 37,
        'x' => 38,
        'c' => 39,
        'v' => 40,
        'b' => 41,
        'n' => 42,
        'm' => 43,
        _ => 0,
    }
}

proof fn lemma_us_capital(c: char) -> (k: int)
    requires
        capital(c),
    ensures
        letter_key(k),
        tables::US_UPPER@[2 * k] == c,
{
    reveal_strlit("~ ! @ # $ % ^ & * ( ) _ + Q W E R T Y U I O P { } | A S D F G H J K L : \" Z X C V B N M < > ?");
    match c {
        'Q' => 13,
        'W' => 14,
        'E' => 15,
        'R' => 16,
        'T' => 17,
        'Y' => 18,
        'U' => 19,
        'I' => 20,
        'O' => 21,
        'P' => 22,
        'A' => 26,
        'S' => 27,
        'D' => 28,
        'F' => 29,
        'G' => 30,
        'H' => 31,
        'J' => 32,
        'K' => 33,
        'L' => 34,
        'Z' => 37,
        'X' => 38,
        'C' => 39,
        'V' => 40,
        'B' => 41,
        'N' => 42,
        'M' => 43,
        _ => 0,
    }
}

/// The key of a US letter.
proof fn lemma_us_letter(c: char) -> (j: int)
    requires
        small(c) || capital(c),
    ensures
        0 <= j < 88,
        letter_key(j / 2),
        small(c) ==> j % 2 == 0,
        layout::board_of(tables::us()).key(c) == Some(j),
        faithful(layout::board_of(tables::us()), j),
{
    let d = tables::us();
    let b = layout::board_of(d);
    lemma_us_is_plain();
    layout::lemma_known_layouts_complete(0);
    assert(tables::known()[0] == d);
    assert(d.lower.len() == 93 && takes_turns(d.lower, 93)) by {
        reveal_strlit("` 1 2 3 4 5 6 7 8 9 0 - = q w e r t y u i o p [ ] \\ a s d f g h j k l ; ' z x c v b n m , . /");
        reveal_with_fuel(takes_turns, 100);
    }
    assert(d.upper.len() == 93 && takes_turns(d.upper, 93)) by {
        reveal_strlit("~ ! @ # $ % ^ & * ( ) _ + Q W E R T Y U I O P { } | A S D F G H J K L : \" Z X C V B N M < > ?");
        reveal_with_fuel(takes_turns, 100);
    }
    lemma_turns_fit(d.upper);
    let j = if small(c) {
        2 * lemma_us_small(c)
    } else {
        2 * lemma_us_capital(c) + 1
    };
    lemma_slot(d, d.upper, j);
    assert(b.slots[j].len() == 1 && b.slots[j][0] == c);
    layout::lemma_letter_slot(b.slots, c, 0);
    let l = layout::letter_slot(b.slots, c, 0)->0;
    assert(b.slots[l][0] == b.slots[j][0]);
    j
}

/// On every layout in the tables the keys of the US letters are no dead keys. But
/// for `ar` they type characters of their own without shift, and but for `he` and
/// `el` with it too.
proof fn lemma_letter_keys_of(i: int, j: int)
    requires
        0 <= i < tables::known().len(),
        0 <= j < 88,
        letter_key(j / 2),
    ensures
        layout::board_of(tables::known()[i]).mark(j) is None,
        1 <= i && i != 4 && (j % 2 == 0 || (i != 3 && i != 5)) ==> faithful(
            layout::board_of(tables::known()[i]),
            j,
        ),
{
    let b = layout::board_of(tables::known()[i]);
    if i == 0 || i == 4 {
        assert(b.dead =~= Seq::empty());
    } else if i == 1 {
        lemma_ru_letters();
    } else if i == 2 {
        lemma_uk_letters();
    } else if i == 3 {
        lemma_he_letters();
    } else if i == 5 {
        lemma_el_letters();
    } else if i == 6 {
        lemma_de_letters();
    } else if i == 7 {
        lemma_fr_letters();
    } else if i == 8 {
        lemma_es_letters();
    } else {
        lemma_tr_letters();
    }
}

/// Text of US letters can be re-typed on every layout in the tables and back.
pub proof fn lemma_letters_are_convertible(s: Seq<char>, i: int)
    requires
        0 <= i < tables::known().len(),
        forall|k: int| 0 <= k < s.len() ==> small(#[trigger] s[k]) || capital(s[k]),
    ensures
        retyping::convertible(
            s,
            layout::board_of(tables::us()),
            layout::board_of(tables::known()[i]),
        ),
{
    let us = layout::board_of(tables::us());
    let other = layout::board_of(tables::known()[i]);
    assert forall|k: int| 0 <= k < s.len() implies us.types(s[k]) && (us.key(
        #[trigger] s[k],
    ) matches Some(j) && other.mark(j) is None) by {
        let j = lemma_us_letter(s[k]);
        lemma_letter_keys_of(i, j);
    }
    retyping::lemma_quiet_text(s, us, other);
}

/// Whatever US letters are re-typed on a layout in the tables, the outcome is a
/// fixed point: going back and forth again leaves it as it is.
pub proof fn lemma_letters_reach_a_fixed_point(s: Seq<char>, i: int)
    requires
        0 <= i < tables::known().len(),
        forall|k: int| 0 <= k < s.len() ==> small(#[trigger] s[k]) || capital(s[k]),
    ensures
        ({
            let us = layout::board_of(tables::us());
            let other = layout::board_of(tables::known()[i]);
            let once = layout::converted(s, us, other);
            layout::converted(layout::converted(once, other, us), us, other) == once
        }),
{
    lemma_letters_are_convertible(s, i);
    lemma_fixed_point_for_every_layout(s, i);
}

/// Whether US letters come back from a layout: small ones from every layout in the
/// tables but the Arabic one, on which one key types what two others do, and
/// capitals where moreover they have letters of their own, so not from the Hebrew
/// and the Greek one.
pub open spec fn comes_back_from(c: char, id: Seq<char>) -> bool {
    ||| small(c) && id != "ar"@
    ||| capital(c) && id != "ar"@ && id != "he"@ && id != "el"@
}

/// Text of US letters that is re-typed on a layout in the tables and back comes
/// back unchanged, where its letters do.
pub proof fn lemma_letters_come_back(s: Seq<char>, i: int)
    requires
        0 <= i < tables::known().len(),
        forall|k: int|
            0 <= k < s.len() ==> comes_back_from(#[trigger] s[k], tables::known()[i].id),
    ensures
        ({
            let us = layout::board_of(tables::us());
            let other = layout::board_of(tables::known()[i]);
            layout::converted(layout::converted(s, us, other), other, us) == s
        }),
{
    let us = layout::board_of(tables::us());
    let other = layout::board_of(tables::known()[i]);
    lemma_us_is_plain();
    assert forall|k: int| 0 <= k < s.len() implies (us.key(#[trigger] s[k]) matches Some(j)
        && other.slots[j].len() == 1 && other.key(other.slots[j][0]) == Some(j) && other.mark(
        j,
    ) is None) by {
        assert(comes_back_from(s[k], tables::known()[i].id));
        let j = lemma_us_letter(s[k]);
        assert(i != 4 && (small(s[k]) || (i != 3 && i != 5)));
        lemma_letter_keys_of(i, j);
        if i == 0 {
            assert(faithful(us, j));
        } else {
            assert(faithful(other, j));
        }
    }
    retyping::lemma_unambiguous_text_comes_back(s, us, other);
}

} // verus!
