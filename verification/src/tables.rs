//! The keyboards the library knows.
//!
//! Every layout is 47 tokens separated by single spaces, one per printable key of
//! a US ANSI keyboard, always in the same physical order:
//!
//! ```text
//!   row 1 (13):  ` 1 2 3 4 5 6 7 8 9 0 - =
//!   row 2 (13):  q w e r t y u i o p [ ] \
//!   row 3 (11):  a s d f g h j k l ; '
//!   row 4 (10):  z x c v b n m , . /
//! ```
//!
//! The token `~NONE~` marks a key that produces nothing on that layout.

use crate::layout::{Def, LayoutDef, Script};
use vstd::prelude::*;

verus! {

pub const US_LOWER: &'static str = "` 1 2 3 4 5 6 7 8 9 0 - = q w e r t y u i o p [ ] \\ a s d f g h j k l ; ' z x c v b n m , . /";

pub const US_UPPER: &'static str = "~ ! @ # $ % ^ & * ( ) _ + Q W E R T Y U I O P { } | A S D F G H J K L : \" Z X C V B N M < > ?";

pub const RU_LOWER: &'static str = "ё 1 2 3 4 5 6 7 8 9 0 - = й ц у к е н г ш щ з х ъ \\ ф ы в а п р о л д ж э я ч с м и т ь б ю .";

pub const RU_UPPER: &'static str = "Ё ! \" № ; % : ? * ( ) _ + Й Ц У К Е Н Г Ш Щ З Х Ъ / Ф Ы В А П Р О Л Д Ж Э Я Ч С М И Т Ь Б Ю ,";

pub const UK_LOWER: &'static str = "' 1 2 3 4 5 6 7 8 9 0 - = й ц у к е н г ш щ з х ї ґ ф і в а п р о л д ж є я ч с м и т ь б ю .";

pub const UK_UPPER: &'static str = "₴ ! \" № ; % : ? * ( ) _ + Й Ц У К Е Н Г Ш Щ З Х Ї Ґ Ф І В А П Р О Л Д Ж Є Я Ч С М И Т Ь Б Ю ,";

pub const HE_LOWER: &'static str = "; 1 2 3 4 5 6 7 8 9 0 - = / ' ק ר א ט ו ן ם פ ] [ \\ ש ד ג כ ע י ח ל ך ף , ז ס ב ה נ מ צ ת ץ .";

pub const HE_UPPER: &'static str = "~ ! @ # $ % ^ & * ( ) _ + Q W ק ר א ט ו ן ם פ } { | ש ד ג כ ע י ח ל ך ף \" ז ס ב ה נ מ צ ת ץ ?";

pub const AR_LOWER: &'static str = "ذ 1 2 3 4 5 6 7 8 9 0 - = ض ص ث ق ف غ ع ه خ ح ج د \\ ش س ي ب ل ا ت ن م ك ط ئ ء ؤ ر لا ى ة و ز ظ";

pub const AR_UPPER: &'static str = "ّ ! @ # $ % ^ & * ( ) _ + َ ً ُ ٌ لإ إ ‘ ÷ × ؛ < > | ِ ٍ ] [ لأ أ ـ ، / : \" ~ ْ } { لآ آ ’ , . ؟";

pub const EL_LOWER: &'static str = "` 1 2 3 4 5 6 7 8 9 0 - = ; ς ε ρ τ υ θ ι ο π [ ] \\ α σ δ φ γ η ξ κ λ ΄ ' ζ χ ψ ω β ν μ , . /";

pub const EL_UPPER: &'static str = "~ ! @ # $ % ^ & * ( ) _ + : Σ Ε Ρ Τ Υ Θ Ι Ο Π { } | Α Σ Δ Φ Γ Η Ξ Κ Λ ¨ \" Ζ Χ Ψ Ω Β Ν Μ < > ?";

pub const DE_LOWER: &'static str = "^ 1 2 3 4 5 6 7 8 9 0 ß ´ q w e r t z u i o p ü + # a s d f g h j k l ö ä y x c v b n m , . -";

pub const DE_UPPER: &'static str = "° ! \" § $ % & / ( ) = ? ` Q W E R T Z U I O P Ü * ' A S D F G H J K L Ö Ä Y X C V B N M ; : _";

pub const FR_LOWER: &'static str = "² & é \" ' ( - è _ ç à ) = a z e r t y u i o p ^ $ * q s d f g h j k l m ù w x c v b n , ; : !";

pub const FR_UPPER: &'static str = "~NONE~ 1 2 3 4 5 6 7 8 9 0 ° + A Z E R T Y U I O P ¨ £ µ Q S D F G H J K L M % W X C V B N ? . / §";

pub const ES_LOWER: &'static str = "º 1 2 3 4 5 6 7 8 9 0 ' ¡ q w e r t y u i o p ` + ç a s d f g h j k l ñ ´ z x c v b n m , . -";

pub const ES_UPPER: &'static str = "ª ! \" · $ % & / ( ) = ? ¿ Q W E R T Y U I O P ^ * Ç A S D F G H J K L Ñ ¨ Z X C V B N M ; : _";

pub const TR_LOWER: &'static str = "\" 1 2 3 4 5 6 7 8 9 0 * - q w e r t y u ı o p ğ ü , a s d f g h j k l ş i z x c v b n m ö ç .";

pub const TR_UPPER: &'static str = "é ! ' ^ + % & / ( ) = ? _ Q W E R T Y U I O P Ğ Ü ; A S D F G H J K L Ş İ Z X C V B N M Ö Ç :";

pub open spec fn us() -> Def {
    Def {
        id: "us"@,
        name: "English (US QWERTY)"@,
        lang: "en"@,
        script: Script::Latin,
        latin_overlap: true,
        lower: US_LOWER@,
        upper: US_UPPER@,
        dead: Seq::empty(),
    }
}

pub open spec fn ru() -> Def {
    Def {
        id: "ru"@,
        name: "Russian (ЙЦУКЕН)"@,
        lang: "ru"@,
        script: Script::Cyrillic,
        latin_overlap: false,
        lower: RU_LOWER@,
        upper: RU_UPPER@,
        dead: Seq::empty(),
    }
}

pub open spec fn uk() -> Def {
    Def {
        id: "uk"@,
        name: "Ukrainian (ЙЦУКЕН)"@,
        lang: "uk"@,
        script: Script::Cyrillic,
        latin_overlap: false,
        lower: UK_LOWER@,
        upper: UK_UPPER@,
        dead: Seq::empty(),
    }
}

pub open spec fn he() -> Def {
    Def {
        id: "he"@,
        name: "Hebrew"@,
        lang: "he"@,
        script: Script::Hebrew,
        latin_overlap: false,
        lower: HE_LOWER@,
        upper: HE_UPPER@,
        dead: Seq::empty(),
    }
}

pub open spec fn ar() -> Def {
    Def {
        id: "ar"@,
        name: "Arabic (101)"@,
        lang: "ar"@,
        script: Script::Arabic,
        latin_overlap: false,
        lower: AR_LOWER@,
        upper: AR_UPPER@,
        dead: Seq::empty(),
    }
}

pub open spec fn el() -> Def {
    Def {
        id: "el"@,
        name: "Greek"@,
        lang: "el"@,
        script: Script::Greek,
        latin_overlap: false,
        lower: EL_LOWER@,
        upper: EL_UPPER@,
        dead: seq![('\u{301}', '\u{384}'), ('\u{308}', '\u{a8}')],
    }
}

pub open spec fn de() -> Def {
    Def {
        id: "de"@,
        name: "German (QWERTZ)"@,
        lang: "de"@,
        script: Script::Latin,
        latin_overlap: true,
        lower: DE_LOWER@,
        upper: DE_UPPER@,
        dead: seq![('\u{301}', '\u{b4}'), ('\u{300}', '\u{60}'), ('\u{302}', '\u{5e}')],
    }
}

pub open spec fn fr() -> Def {
    Def {
        id: "fr"@,
        name: "French (AZERTY)"@,
        lang: "fr"@,
        script: Script::Latin,
        latin_overlap: true,
        lower: FR_LOWER@,
        upper: FR_UPPER@,
        dead: seq![('\u{302}', '\u{5e}'), ('\u{308}', '\u{a8}')],
    }
}

pub open spec fn es() -> Def {
    Def {
        id: "es"@,
        name: "Spanish (QWERTY)"@,
        lang: "es"@,
        script: Script::Latin,
        latin_overlap: true,
        lower: ES_LOWER@,
        upper: ES_UPPER@,
        dead: seq![('\u{301}', '\u{b4}'), ('\u{308}', '\u{a8}'), ('\u{300}', '\u{60}'), ('\u{302}', '\u{5e}')],
    }
}

pub open spec fn tr() -> Def {
    Def {
        id: "tr"@,
        name: "Turkish (Q)"@,
        lang: "tr"@,
        script: Script::Latin,
        latin_overlap: true,
        lower: TR_LOWER@,
        upper: TR_UPPER@,
        dead: Seq::empty(),
    }
}

/// Every layout, in the order in which the settings list them.
pub open spec fn known() -> Seq<Def> {
    seq![us(), ru(), uk(), he(), ar(), el(), de(), fr(), es(), tr()]
}

/// Every layout, in the order in which the settings list them.
pub fn layout_defs() -> (r: Vec<LayoutDef>)
    ensures
        r@.len() == known().len(),
        forall|i: int| 0 <= i < r@.len() ==> (#[trigger] r@[i])@ == known()[i],
{
    let mut defs: Vec<LayoutDef> = Vec::new();
    defs.push(
        LayoutDef {
            id: "us",
            name: "English (US QWERTY)",
            lang: "en",
            script: Script::Latin,
            latin_overlap: true,
            lower: US_LOWER,
            upper: US_UPPER,
            dead: &[],
        },
    );
    defs.push(
        LayoutDef {
            id: "ru",
            name: "Russian (ЙЦУКЕН)",
            lang: "ru",
            script: Script::Cyrillic,
            latin_overlap: false,
            lower: RU_LOWER,
            upper: RU_UPPER,
            dead: &[],
        },
    );
    defs.push(
        LayoutDef {
            id: "uk",
            name: "Ukrainian (ЙЦУКЕН)",
            lang: "uk",
            script: Script::Cyrillic,
            latin_overlap: false,
            lower: UK_LOWER,
            upper: UK_UPPER,
            dead: &[],
        },
    );
    defs.push(
        LayoutDef {
            id: "he",
            name: "Hebrew",
            lang: "he",
            script: Script::Hebrew,
            latin_overlap: false,
            lower: HE_LOWER,
            upper: HE_UPPER,
            dead: &[],
        },
    );
    defs.push(
        LayoutDef {
            id: "ar",
            name: "Arabic (101)",
            lang: "ar",
            script: Script::Arabic,
            latin_overlap: false,
            lower: AR_LOWER,
            upper: AR_UPPER,
            dead: &[],
        },
    );
    defs.push(
        LayoutDef {
            id: "el",
            name: "Greek",
            lang: "el",
            script: Script::Greek,
            latin_overlap: false,
            lower: EL_LOWER,
            upper: EL_UPPER,
            dead: &[('\u{301}', '\u{384}'), ('\u{308}', '\u{a8}')],
        },
    );
    defs.push(
        LayoutDef {
            id: "de",
            name: "German (QWERTZ)",
            lang: "de",
            script: Script::Latin,
            latin_overlap: true,
            lower: DE_LOWER,
            upper: DE_UPPER,
            dead: &[('\u{301}', '\u{b4}'), ('\u{300}', '\u{60}'), ('\u{302}', '\u{5e}')],
        },
    );
    defs.push(
        LayoutDef {
            id: "fr",
            name: "French (AZERTY)",
            lang: "fr",
            script: Script::Latin,
            latin_overlap: true,
            lower: FR_LOWER,
            upper: FR_UPPER,
            dead: &[('\u{302}', '\u{5e}'), ('\u{308}', '\u{a8}')],
        },
    );
    defs.push(
        LayoutDef {
            id: "es",
            name: "Spanish (QWERTY)",
            lang: "es",
            script: Script::Latin,
            latin_overlap: true,
            lower: ES_LOWER,
            upper: ES_UPPER,
            dead: &[('\u{301}', '\u{b4}'), ('\u{308}', '\u{a8}'), ('\u{300}', '\u{60}'), ('\u{302}', '\u{5e}')],
        },
    );
    defs.push(
        LayoutDef {
            id: "tr",
            name: "Turkish (Q)",
            lang: "tr",
            script: Script::Latin,
            latin_overlap: true,
            lower: TR_LOWER,
            upper: TR_UPPER,
            dead: &[],
        },
    );
    assert(defs@[0]@ == us());
    assert(defs@[1]@ == ru());
    assert(defs@[2]@ == uk());
    assert(defs@[3]@ == he());
    assert(defs@[4]@ == ar());
    assert(defs@[5]@ == el());
    assert(defs@[6]@ == de());
    assert(defs@[7]@ == fr());
    assert(defs@[8]@ == es());
    assert(defs@[9]@ == tr());
    defs
}

/// How many of the first `n` characters are spaces.
pub open spec fn spaces(s: Seq<char>, n: int) -> int
    decreases n,
{
    if n <= 0 {
        0
    } else {
        spaces(s, n - 1) + if s[n - 1] == ' ' {
            1int
        } else {
            0
        }
    }
}

proof fn lemma_us_keys()
    ensures
        spaces(US_LOWER@, US_LOWER@.len() as int) == 46,
        spaces(US_UPPER@, US_UPPER@.len() as int) == 46,
{
    assert(spaces(US_LOWER@, US_LOWER@.len() as int) == 46) by {
        reveal_strlit("` 1 2 3 4 5 6 7 8 9 0 - = q w e r t y u i o p [ ] \\ a s d f g h j k l ; ' z x c v b n m , . /");
        reveal_with_fuel(spaces, 120);
    }
    assert(spaces(US_UPPER@, US_UPPER@.len() as int) == 46) by {
        reveal_strlit("~ ! @ # $ % ^ & * ( ) _ + Q W E R T Y U I O P { } | A S D F G H J K L : \" Z X C V B N M < > ?");
        reveal_with_fuel(spaces, 120);
    }
}

proof fn lemma_ru_keys()
    ensures
        spaces(RU_LOWER@, RU_LOWER@.len() as int) == 46,
        spaces(RU_UPPER@, RU_UPPER@.len() as int) == 46,
{
    assert(spaces(RU_LOWER@, RU_LOWER@.len() as int) == 46) by {
        reveal_strlit("ё 1 2 3 4 5 6 7 8 9 0 - = й ц у к е н г ш щ з х ъ \\ ф ы в а п р о л д ж э я ч с м и т ь б ю .");
        reveal_with_fuel(spaces, 120);
    }
    assert(spaces(RU_UPPER@, RU_UPPER@.len() as int) == 46) by {
        reveal_strlit("Ё ! \" № ; % : ? * ( ) _ + Й Ц У К Е Н Г Ш Щ З Х Ъ / Ф Ы В А П Р О Л Д Ж Э Я Ч С М И Т Ь Б Ю ,");
        reveal_with_fuel(spaces, 120);
    }
}

proof fn lemma_uk_keys()
    ensures
        spaces(UK_LOWER@, UK_LOWER@.len() as int) == 46,
        spaces(UK_UPPER@, UK_UPPER@.len() as int) == 46,
{
    assert(spaces(UK_LOWER@, UK_LOWER@.len() as int) == 46) by {
        reveal_strlit("' 1 2 3 4 5 6 7 8 9 0 - = й ц у к е н г ш щ з х ї ґ ф і в а п р о л д ж є я ч с м и т ь б ю .");
        reveal_with_fuel(spaces, 120);
    }
    assert(spaces(UK_UPPER@, UK_UPPER@.len() as int) == 46) by {
        reveal_strlit("₴ ! \" № ; % : ? * ( ) _ + Й Ц У К Е Н Г Ш Щ З Х Ї Ґ Ф І В А П Р О Л Д Ж Є Я Ч С М И Т Ь Б Ю ,");
        reveal_with_fuel(spaces, 120);
    }
}

proof fn lemma_he_keys()
    ensures
        spaces(HE_LOWER@, HE_LOWER@.len() as int) == 46,
        spaces(HE_UPPER@, HE_UPPER@.len() as int) == 46,
{
    assert(spaces(HE_LOWER@, HE_LOWER@.len() as int) == 46) by {
        reveal_strlit("; 1 2 3 4 5 6 7 8 9 0 - = / ' ק ר א ט ו ן ם פ ] [ \\ ש ד ג כ ע י ח ל ך ף , ז ס ב ה נ מ צ ת ץ .");
        reveal_with_fuel(spaces, 120);
    }
    assert(spaces(HE_UPPER@, HE_UPPER@.len() as int) == 46) by {
        reveal_strlit("~ ! @ # $ % ^ & * ( ) _ + Q W ק ר א ט ו ן ם פ } { | ש ד ג כ ע י ח ל ך ף \" ז ס ב ה נ מ צ ת ץ ?");
        reveal_with_fuel(spaces, 120);
    }
}

proof fn lemma_ar_keys()
    ensures
        spaces(AR_LOWER@, AR_LOWER@.len() as int) == 46,
        spaces(AR_UPPER@, AR_UPPER@.len() as int) == 46,
{
    assert(spaces(AR_LOWER@, AR_LOWER@.len() as int) == 46) by {
        reveal_strlit("ذ 1 2 3 4 5 6 7 8 9 0 - = ض ص ث ق ف غ ع ه خ ح ج د \\ ش س ي ب ل ا ت ن م ك ط ئ ء ؤ ر لا ى ة و ز ظ");
        reveal_with_fuel(spaces, 120);
    }
    assert(spaces(AR_UPPER@, AR_UPPER@.len() as int) == 46) by {
        reveal_strlit("ّ ! @ # $ % ^ & * ( ) _ + َ ً ُ ٌ لإ إ ‘ ÷ × ؛ < > | ِ ٍ ] [ لأ أ ـ ، / : \" ~ ْ } { لآ آ ’ , . ؟");
        reveal_with_fuel(spaces, 120);
    }
}

proof fn lemma_el_keys()
    ensures
        spaces(EL_LOWER@, EL_LOWER@.len() as int) == 46,
        spaces(EL_UPPER@, EL_UPPER@.len() as int) == 46,
{
    assert(spaces(EL_LOWER@, EL_LOWER@.len() as int) == 46) by {
        reveal_strlit("` 1 2 3 4 5 6 7 8 9 0 - = ; ς ε ρ τ υ θ ι ο π [ ] \\ α σ δ φ γ η ξ κ λ ΄ ' ζ χ ψ ω β ν μ , . /");
        reveal_with_fuel(spaces, 120);
    }
    assert(spaces(EL_UPPER@, EL_UPPER@.len() as int) == 46) by {
        reveal_strlit("~ ! @ # $ % ^ & * ( ) _ + : Σ Ε Ρ Τ Υ Θ Ι Ο Π { } | Α Σ Δ Φ Γ Η Ξ Κ Λ ¨ \" Ζ Χ Ψ Ω Β Ν Μ < > ?");
        reveal_with_fuel(spaces, 120);
    }
}

proof fn lemma_de_keys()
    ensures
        spaces(DE_LOWER@, DE_LOWER@.len() as int) == 46,
        spaces(DE_UPPER@, DE_UPPER@.len() as int) == 46,
{
    assert(spaces(DE_LOWER@, DE_LOWER@.len() as int) == 46) by {
        reveal_strlit("^ 1 2 3 4 5 6 7 8 9 0 ß ´ q w e r t z u i o p ü + # a s d f g h j k l ö ä y x c v b n m , . -");
        reveal_with_fuel(spaces, 120);
    }
    assert(spaces(DE_UPPER@, DE_UPPER@.len() as int) == 46) by {
        reveal_strlit("° ! \" § $ % & / ( ) = ? ` Q W E R T Z U I O P Ü * ' A S D F G H J K L Ö Ä Y X C V B N M ; : _");
        reveal_with_fuel(spaces, 120);
    }
}

proof fn lemma_fr_keys()
    ensures
        spaces(FR_LOWER@, FR_LOWER@.len() as int) == 46,
        spaces(FR_UPPER@, FR_UPPER@.len() as int) == 46,
{
    assert(spaces(FR_LOWER@, FR_LOWER@.len() as int) == 46) by {
        reveal_strlit("² & é \" ' ( - è _ ç à ) = a z e r t y u i o p ^ $ * q s d f g h j k l m ù w x c v b n , ; : !");
        reveal_with_fuel(spaces, 120);
    }
    assert(spaces(FR_UPPER@, FR_UPPER@.len() as int) == 46) by {
        reveal_strlit("~NONE~ 1 2 3 4 5 6 7 8 9 0 ° + A Z E R T Y U I O P ¨ £ µ Q S D F G H J K L M % W X C V B N ? . / §");
        reveal_with_fuel(spaces, 120);
    }
}

proof fn lemma_es_keys()
    ensures
        spaces(ES_LOWER@, ES_LOWER@.len() as int) == 46,
        spaces(ES_UPPER@, ES_UPPER@.len() as int) == 46,
{
    assert(spaces(ES_LOWER@, ES_LOWER@.len() as int) == 46) by {
        reveal_strlit("º 1 2 3 4 5 6 7 8 9 0 ' ¡ q w e r t y u i o p ` + ç a s d f g h j k l ñ ´ z x c v b n m , . -");
        reveal_with_fuel(spaces, 120);
    }
    assert(spaces(ES_UPPER@, ES_UPPER@.len() as int) == 46) by {
        reveal_strlit("ª ! \" · $ % & / ( ) = ? ¿ Q W E R T Y U I O P ^ * Ç A S D F G H J K L Ñ ¨ Z X C V B N M ; : _");
        reveal_with_fuel(spaces, 120);
    }
}

proof fn lemma_tr_keys()
    ensures
        spaces(TR_LOWER@, TR_LOWER@.len() as int) == 46,
        spaces(TR_UPPER@, TR_UPPER@.len() as int) == 46,
{
    assert(spaces(TR_LOWER@, TR_LOWER@.len() as int) == 46) by {
        reveal_strlit("\" 1 2 3 4 5 6 7 8 9 0 * - q w e r t y u ı o p ğ ü , a s d f g h j k l ş i z x c v b n m ö ç .");
        reveal_with_fuel(spaces, 120);
    }
    assert(spaces(TR_UPPER@, TR_UPPER@.len() as int) == 46) by {
        reveal_strlit("é ! ' ^ + % & / ( ) = ? _ Q W E R T Y U I O P Ğ Ü ; A S D F G H J K L Ş İ Z X C V B N M Ö Ç :");
        reveal_with_fuel(spaces, 120);
    }
}

/// Every row of every layout names 47 keys.
pub proof fn lemma_every_layout_has_47_keys(i: int)
    requires
        0 <= i < known().len(),
    ensures
        spaces(known()[i].lower, known()[i].lower.len() as int) == 46,
        spaces(known()[i].upper, known()[i].upper.len() as int) == 46,
{
    lemma_us_keys();
    lemma_ru_keys();
    lemma_uk_keys();
    lemma_he_keys();
    lemma_ar_keys();
    lemma_el_keys();
    lemma_de_keys();
    lemma_fr_keys();
    lemma_es_keys();
    lemma_tr_keys();
}

/// What holds of every layout: it shares its alphabet with US QWERTY exactly if it is
/// one for Latin letters, and it is named after its language, but for the US layout,
/// which is for English; its writing system is that of its language.
pub proof fn lemma_what_each_layout_is_for(i: int)
    requires
        0 <= i < known().len(),
    ensures
        known().len() == 10,
        known()[i].latin_overlap <==> known()[i].script == Script::Latin,
        known()[i].id == "us"@ ==> known()[i].lang == "en"@,
        known()[i].id != "us"@ ==> known()[i].lang == known()[i].id,
        known()[i].script == match known()[i].id[0] {
            'r' => Script::Cyrillic,
            'h' => Script::Hebrew,
            'a' => Script::Arabic,
            _ => if known()[i].id == "uk"@ {
                Script::Cyrillic
            } else if known()[i].id == "el"@ {
                Script::Greek
            } else {
                Script::Latin
            },
        },
{
    reveal_strlit("us");
    reveal_strlit("ru");
    reveal_strlit("uk");
    reveal_strlit("he");
    reveal_strlit("ar");
    reveal_strlit("el");
    reveal_strlit("de");
    reveal_strlit("fr");
    reveal_strlit("es");
    reveal_strlit("tr");
    assert("us"@[1] == 's' && "uk"@[1] == 'k' && "el"@[1] == 'l' && "es"@[1] == 's');
    assert("us"@[0] == 'u' && "ru"@[0] == 'r' && "he"@[0] == 'h' && "ar"@[0] == 'a');
    assert("de"@[0] == 'd' && "fr"@[0] == 'f' && "tr"@[0] == 't' && "el"@[0] == 'e');
    assert("es"@[0] == 'e' && "uk"@[0] == 'u');
}

/// No two layouts have the same identifier.
pub proof fn lemma_every_layout_has_its_own_identifier(i: int, j: int)
    requires
        0 <= i < j < known().len(),
    ensures
        known()[i].id != known()[j].id,
{
    reveal_strlit("us");
    reveal_strlit("ru");
    reveal_strlit("uk");
    reveal_strlit("he");
    reveal_strlit("ar");
    reveal_strlit("el");
    reveal_strlit("de");
    reveal_strlit("fr");
    reveal_strlit("es");
    reveal_strlit("tr");
    let (a, b) = (known()[i].id, known()[j].id);
    assert("us"@[1] == 's' && "uk"@[1] == 'k' && "el"@[1] == 'l' && "es"@[1] == 's');
    if a == b {
        assert(a[0] == b[0] && a[1] == b[1]);
    }
}

} // verus!
