//! What is printed on the keys of each layout.

use crate::layout;
use crate::retyping;
use crate::shipped;
use crate::tables;
use vstd::prelude::*;

verus! {

/// What is printed on the keys, from the key left of the one to the last in the bottom
/// row, below and above.
pub open spec fn caps(i: int) -> (Seq<char>, Seq<char>) {
    if i == 0 {
        (
            "` 1 2 3 4 5 6 7 8 9 0 - = q w e r t y u i o p [ ] \\ a s d f g h j k l ; ' z x c v b n m , . /"@,
            "~ ! @ # $ % ^ & * ( ) _ + Q W E R T Y U I O P { } | A S D F G H J K L : \" Z X C V B N M < > ?"@,
        )
    } else if i == 1 {
        (
            "ё 1 2 3 4 5 6 7 8 9 0 - = й ц у к е н г ш щ з х ъ \\ ф ы в а п р о л д ж э я ч с м и т ь б ю ."@,
            "Ё ! \" № ; % : ? * ( ) _ + Й Ц У К Е Н Г Ш Щ З Х Ъ / Ф Ы В А П Р О Л Д Ж Э Я Ч С М И Т Ь Б Ю ,"@,
        )
    } else if i == 2 {
        (
            "' 1 2 3 4 5 6 7 8 9 0 - = й ц у к е н г ш щ з х ї ґ ф і в а п р о л д ж є я ч с м и т ь б ю ."@,
            "₴ ! \" № ; % : ? * ( ) _ + Й Ц У К Е Н Г Ш Щ З Х Ї Ґ Ф І В А П Р О Л Д Ж Є Я Ч С М И Т Ь Б Ю ,"@,
        )
    } else if i == 3 {
        (
            "; 1 2 3 4 5 6 7 8 9 0 - = / ' ק ר א ט ו ן ם פ ] [ \\ ש ד ג כ ע י ח ל ך ף , ז ס ב ה נ מ צ ת ץ ."@,
            "~ ! @ # $ % ^ & * ( ) _ + Q W ק ר א ט ו ן ם פ } { | ש ד ג כ ע י ח ל ך ף \" ז ס ב ה נ מ צ ת ץ ?"@,
        )
    } else if i == 4 {
        (
            "ذ 1 2 3 4 5 6 7 8 9 0 - = ض ص ث ق ف غ ع ه خ ح ج د \\ ش س ي ب ل ا ت ن م ك ط ئ ء ؤ ر لا ى ة و ز ظ"@,
            "ّ ! @ # $ % ^ & * ( ) _ + َ ً ُ ٌ لإ إ ‘ ÷ × ؛ < > | ِ ٍ ] [ لأ أ ـ ، / : \" ~ ْ } { لآ آ ’ , . ؟"@,
        )
    } else if i == 5 {
        (
            "` 1 2 3 4 5 6 7 8 9 0 - = ; ς ε ρ τ υ θ ι ο π [ ] \\ α σ δ φ γ η ξ κ λ ΄ ' ζ χ ψ ω β ν μ , . /"@,
            "~ ! @ # $ % ^ & * ( ) _ + : Σ Ε Ρ Τ Υ Θ Ι Ο Π { } | Α Σ Δ Φ Γ Η Ξ Κ Λ ¨ \" Ζ Χ Ψ Ω Β Ν Μ < > ?"@,
        )
    } else if i == 6 {
        (
            "^ 1 2 3 4 5 6 7 8 9 0 ß ´ q w e r t z u i o p ü + # a s d f g h j k l ö ä y x c v b n m , . -"@,
            "° ! \" § $ % & / ( ) = ? ` Q W E R T Z U I O P Ü * ' A S D F G H J K L Ö Ä Y X C V B N M ; : _"@,
        )
    } else if i == 7 {
        (
            "² & é \" ' ( - è _ ç à ) = a z e r t y u i o p ^ $ * q s d f g h j k l m ù w x c v b n , ; : !"@,
            "~NONE~ 1 2 3 4 5 6 7 8 9 0 ° + A Z E R T Y U I O P ¨ £ µ Q S D F G H J K L M % W X C V B N ? . / §"@,
        )
    } else if i == 8 {
        (
            "º 1 2 3 4 5 6 7 8 9 0 ' ¡ q w e r t y u i o p ` + ç a s d f g h j k l ñ ´ z x c v b n m , . -"@,
            "ª ! \" · $ % & / ( ) = ? ¿ Q W E R T Y U I O P ^ * Ç A S D F G H J K L Ñ ¨ Z X C V B N M ; : _"@,
        )
    } else if i == 9 {
        (
            "\" 1 2 3 4 5 6 7 8 9 0 * - q w e r t y u ı o p ğ ü , a s d f g h j k l ş i z x c v b n m ö ç ."@,
            "é ! ' ^ + % & / ( ) = ? _ Q W E R T Y U I O P Ğ Ü ; A S D F G H J K L Ş İ Z X C V B N M Ö Ç :"@,
        )
    } else {
        (Seq::empty(), Seq::empty())
    }
}

/// The keys of each layout are as they are printed on the keyboards for it, in the order
/// US, Russian, Ukrainian, Hebrew, Arabic, Greek, German, French, Spanish, Turkish.
pub proof fn lemma_keys_are_as_printed(i: int)
    requires
        0 <= i < tables::known().len(),
    ensures
        tables::known()[i].lower == caps(i).0,
        tables::known()[i].upper == caps(i).1,
{
}

/// The dead keys, by what is printed on them, and the marks that they put on the letter
/// that follows: acute, diaeresis, grave and circumflex.
pub open spec fn mark_of(shown: char) -> Option<char> {
    match shown {
        '\u{384}' | '\u{b4}' => Some('\u{301}'),
        '\u{a8}' => Some('\u{308}'),
        '\u{60}' => Some('\u{300}'),
        '\u{5e}' => Some('\u{302}'),
        _ => None,
    }
}

/// Each dead key puts on the mark that is printed on it, and only the layouts for Greek,
/// German, French and Spanish have any.
pub proof fn lemma_dead_keys_are_as_printed(i: int)
    requires
        0 <= i < tables::known().len(),
    ensures
        forall|k: int|
            0 <= k < tables::known()[i].dead.len() ==> mark_of(
                (#[trigger] tables::known()[i].dead[k]).1,
            ) == Some(tables::known()[i].dead[k].0),
        tables::known()[i].dead.len() == if i == 5 || i == 7 {
            2int
        } else if i == 6 {
            3
        } else if i == 8 {
            4
        } else {
            0
        },
{
}

proof fn lemma_types_itself(b: layout::Board, s: Seq<char>)
    requires
        forall|k: int|
            0 <= k < s.len() ==> (b.key(#[trigger] s[k]) matches Some(j) && b.mark(j) is None
                && b.slots[j] == seq![s[k]]),
    ensures
        layout::converted(s, b, b) == s,
        retyping::quiet(layout::strokes(b, s), b),
    decreases s.len(),
{
    if s.len() == 0 {
        assert(layout::strokes(b, s) =~= Seq::empty());
        assert(layout::converted(s, b, b) =~= s);
    } else {
        let head = s.drop_last();
        let last = seq![s.last()];
        assert(s =~= head + last);
        assert forall|k: int| 0 <= k < head.len() implies (b.key(#[trigger] head[k]) matches Some(j)
            && b.mark(j) is None && b.slots[j] == seq![head[k]]) by {
            assert(head[k] == s[k]);
        }
        lemma_types_itself(b, head);
        assert(s.last() == s[s.len() - 1]);
        retyping::lemma_converted_key(s.last(), b, b);
        retyping::lemma_retyping_is_per_character(head, last, b, b);
        retyping::lemma_quiet_text(s, b, b);
    }
}

/// Pressing the keys that are found for a text on a layout types that text there: each
/// character has a key of its own, and none of them is a dead key.
pub proof fn lemma_the_keys_spell_the_text(i: int, s: Seq<char>)
    requires
        0 <= i < tables::known().len(),
        ({
            let b = layout::board_of(tables::known()[i]);
            forall|k: int|
                0 <= k < s.len() ==> (b.key(#[trigger] s[k]) matches Some(j) && b.mark(j) is None)
        }),
    ensures
        ({
            let b = layout::board_of(tables::known()[i]);
            layout::replay(b, layout::strokes(b, s)).end() == s
        }),
{
    let b = layout::board_of(tables::known()[i]);
    assert forall|k: int| 0 <= k < s.len() implies (b.key(#[trigger] s[k]) matches Some(j)
        && b.mark(j) is None && b.slots[j] == seq![s[k]]) by {
        shipped::lemma_the_key_types_the_character(i, s[k]);
    }
    lemma_types_itself(b, s);
}

} // verus!
