//! The built-in block set: the Calliope mini and micro:bit beginner blocks,
//! with their German and English wording.
use vstd::prelude::*;
use crate::catalog::{
    BlockDef, BlockDefV, CatalogV, FieldDef, FieldDefV, Language, LanguageV, TokenV, spec_compile,
    field_defs_view, flat_aliases,
};
use crate::model::strings_view;
use crate::textutil::to_string;

verus! {

/// A list of strings.
pub fn strs(items: &[&str]) -> (r: Vec<String>)
    ensures
        strings_view(r@) == items@.map_values(|s: &str| s@),
{
    let mut out: Vec<String> = Vec::new();
    let mut i: usize = 0;
    while i < items.len()
        invariant
            i <= items@.len(),
            strings_view(out@) == items@.take(i as int).map_values(|s: &str| s@),
        decreases items@.len() - i,
    {
        let s = to_string(items[i]);
        proof {
            crate::model::lemma_strings_view_push(out@, s);
            assert(items@.take(i + 1).map_values(|s: &str| s@) =~= items@.take(i as int).map_values(
                |s: &str| s@,
            ).push(items@[i as int]@));
        }
        out.push(s);
        i += 1;
    }
    proof {
        assert(items@.take(items@.len() as int) =~= items@);
    }
    out
}

/// A field of the given kind with no further options.
fn field(kind: &str) -> (r: FieldDef)
    ensures
        r@ == fd(kind@),
{
    FieldDef {
        kind: to_string(kind),
        check: Vec::new(),
        default: None,
        values: Vec::new(),
        check_from: None,
        optional: false,
        align: None,
    }
}

/// A value socket accepting one data type.
fn socket(check: &str) -> (r: FieldDef)
    ensures
        r@ == sock(check@),
{
    let mut f = field("value");
    let mut v: Vec<String> = Vec::new();
    let c = to_string(check);
    proof {
        crate::model::lemma_strings_view_push(v@, c);
        assert(strings_view(v@) =~= Seq::<Seq<char>>::empty());
    }
    v.push(c);
    f.check = v;
    proof {
        assert(f@.check =~= seq![check@]);
    }
    f
}

fn named(name: &str, f: FieldDef) -> (r: (String, FieldDef))
    ensures
        r.0@ == name@,
        r.1 == f,
        r.1@ == f@,
{
    (to_string(name), f)
}

fn block(
    platforms: &[&str],
    shape: &str,
    category: &str,
    check: &[&str],
    fields: Vec<(String, FieldDef)>,
) -> (r: BlockDef)
    ensures
        r@ == bd(
            platforms@.map_values(|s: &str| s@),
            shape@,
            category@,
            check@.map_values(|s: &str| s@),
            field_defs_view(fields@),
        ),
{
    BlockDef {
        platforms: strs(platforms),
        shape: to_string(shape),
        category: to_string(category),
        check: strs(check),
        check_from: None,
        check_prefix: None,
        connection: None,
        fields,
    }
}

fn entry(id: &str, def: BlockDef) -> (r: (String, BlockDef))
    ensures
        r.0@ == id@,
        r.1 == def,
        r.1@ == def@,
{
    (to_string(id), def)
}

/// A field of the given kind with no further options.
pub open spec fn fd(kind: Seq<char>) -> FieldDefV {
    FieldDefV {
        kind,
        check: Seq::empty(),
        default: None,
        values: Seq::empty(),
        check_from: None,
        optional: false,
        align: None,
    }
}

/// A value socket accepting one data type.
pub open spec fn sock(check: Seq<char>) -> FieldDefV {
    FieldDefV { check: seq![check], ..fd("value"@) }
}

pub open spec fn bd(
    platforms: Seq<Seq<char>>,
    shape: Seq<char>,
    category: Seq<char>,
    check: Seq<Seq<char>>,
    fields: Seq<(Seq<char>, FieldDefV)>,
) -> BlockDefV {
    BlockDefV {
        platforms,
        shape,
        category,
        check,
        check_from: None,
        check_prefix: None,
        connection: None,
        fields,
    }
}

/// The built-in blocks, in catalog order.
pub open spec fn spec_builtin_blocks() -> Seq<(Seq<char>, BlockDefV)> {
    let none = Seq::<Seq<char>>::empty();
    let calliope = seq!["calliope"@];
    let stmt = "statement"@;
    seq![
        ("mbedControls_start"@, bd(none, "start"@, "activity"@, none, seq![])),
        ("mbedActions_display_text"@, bd(none, stmt, "action"@, none,
            seq![("TYPE"@, fd("dropdown"@)), ("OUT"@, sock("String"@))])),
        ("mbedActions_display_image"@, bd(none, stmt, "action"@, none,
            seq![("TYPE"@, fd("dropdown"@)), ("PICTURE"@, sock("Image"@))])),
        ("mbedActions_display_clear"@, bd(none, stmt, "action"@, none, seq![])),
        ("mbedActions_play_note"@, bd(none, stmt, "action"@, none,
            seq![("DURATION"@, fd("dropdown"@)), ("NOTE"@, fd("dropdown"@))])),
        ("mbedActions_leds_on"@, bd(calliope, stmt, "action"@, none,
            seq![("COLOR"@, sock("Colour"@))])),
        ("mbedActions_leds_off"@, bd(calliope, stmt, "action"@, none, seq![])),
        ("robSensors_key_isPressed"@, bd(none, "value"@, "sensor"@, seq!["Boolean"@],
            seq![("KEY"@, fd("dropdown"@))])),
        ("robSensors_pintouch_isPressed"@, bd(none, "value"@, "sensor"@, seq!["Boolean"@],
            seq![("PIN"@, fd("dropdown"@))])),
        ("mbedSensors_timer_reset"@, bd(none, stmt, "sensor"@, none,
            seq![("TIMER"@, fd("dropdown"@))])),
        ("robControls_loopForever"@, bd(none, stmt, "control"@, none,
            seq![("DO"@, fd("statement"@))])),
        ("controls_repeat_ext"@, bd(none, stmt, "control"@, none,
            seq![("TIMES"@, sock("Number"@)), ("DO"@, fd("statement"@))])),
        ("robControls_if"@, bd(none, stmt, "control"@, none,
            seq![("IF0"@, sock("Boolean"@)), ("DO0"@, fd("statement"@))])),
        ("robControls_ifElse"@, bd(none, stmt, "control"@, none,
            seq![("IF0"@, sock("Boolean"@)), ("DO0"@, fd("statement"@)), ("ELSE"@, fd("statement"@))])),
        ("robControls_wait_time"@, bd(none, stmt, "control"@, none,
            seq![("WAIT"@, sock("Number"@))])),
        ("robControls_wait_for"@, bd(none, stmt, "control"@, none,
            seq![("WAIT"@, sock("Boolean"@))])),
        ("logic_boolean"@, bd(none, "value"@, "logic"@, seq!["Boolean"@],
            seq![("BOOL"@, fd("dropdown"@))])),
        ("text_text"@, bd(none, "value"@, "text"@, seq!["String"@],
            seq![("TEXT"@, fd("text"@))])),
        ("mbedColour_picker"@, bd(none, "value"@, "colour"@, seq!["Colour"@],
            seq![("COLOUR"@, fd("colour"@))])),
        ("mbedImage_image"@, bd(none, "value"@, "image"@, seq!["Image"@],
            seq![("IMAGE"@, fd("matrix"@))])),
    ]
}

/// The structure of every built-in block.
pub(crate) fn builtin_blocks() -> (r: Vec<(String, BlockDef)>)
    ensures
        r@.map_values(|e: (String, BlockDef)| (e.0@, e.1@)) == spec_builtin_blocks(),
{
    let mut b: Vec<(String, BlockDef)> = Vec::new();
    b.push(entry("mbedControls_start", block(&[], "start", "activity", &[], Vec::new())));
    b.push(
        entry(
            "mbedActions_display_text",
            block(
                &[],
                "statement",
                "action",
                &[],
                vec![named("TYPE", field("dropdown")), named("OUT", socket("String"))],
            ),
        ),
    );
    b.push(
        entry(
            "mbedActions_display_image",
            block(
                &[],
                "statement",
                "action",
                &[],
                vec![named("TYPE", field("dropdown")), named("PICTURE", socket("Image"))],
            ),
        ),
    );
    b.push(
        entry("mbedActions_display_clear", block(&[], "statement", "action", &[], Vec::new())),
    );
    b.push(
        entry(
            "mbedActions_play_note",
            block(
                &[],
                "statement",
                "action",
                &[],
                vec![named("DURATION", field("dropdown")), named("NOTE", field("dropdown"))],
            ),
        ),
    );
    b.push(
        entry(
            "mbedActions_leds_on",
            block(
                &["calliope"],
                "statement",
                "action",
                &[],
                vec![named("COLOR", socket("Colour"))],
            ),
        ),
    );
    b.push(
        entry("mbedActions_leds_off", block(&["calliope"], "statement", "action", &[], Vec::new())),
    );
    b.push(
        entry(
            "robSensors_key_isPressed",
            block(&[], "value", "sensor", &["Boolean"], vec![named("KEY", field("dropdown"))]),
        ),
    );
    b.push(
        entry(
            "robSensors_pintouch_isPressed",
            block(&[], "value", "sensor", &["Boolean"], vec![named("PIN", field("dropdown"))]),
        ),
    );
    b.push(
        entry(
            "mbedSensors_timer_reset",
            block(&[], "statement", "sensor", &[], vec![named("TIMER", field("dropdown"))]),
        ),
    );
    b.push(
        entry(
            "robControls_loopForever",
            block(&[], "statement", "control", &[], vec![named("DO", field("statement"))]),
        ),
    );
    b.push(
        entry(
            "controls_repeat_ext",
            block(
                &[],
                "statement",
                "control",
                &[],
                vec![named("TIMES", socket("Number")), named("DO", field("statement"))],
            ),
        ),
    );
    b.push(
        entry(
            "robControls_if",
            block(
                &[],
                "statement",
                "control",
                &[],
                vec![named("IF0", socket("Boolean")), named("DO0", field("statement"))],
            ),
        ),
    );
    b.push(
        entry(
            "robControls_ifElse",
            block(
                &[],
                "statement",
                "control",
                &[],
                vec![
                    named("IF0", socket("Boolean")),
                    named("DO0", field("statement")),
                    named("ELSE", field("statement")),
                ],
            ),
        ),
    );
    b.push(
        entry(
            "robControls_wait_time",
            block(&[], "statement", "control", &[], vec![named("WAIT", socket("Number"))]),
        ),
    );
    b.push(
        entry(
            "robControls_wait_for",
            block(&[], "statement", "control", &[], vec![named("WAIT", socket("Boolean"))]),
        ),
    );
    b.push(
        entry(
            "logic_boolean",
            block(&[], "value", "logic", &["Boolean"], vec![named("BOOL", field("dropdown"))]),
        ),
    );
    b.push(
        entry(
            "text_text",
            block(&[], "value", "text", &["String"], vec![named("TEXT", field("text"))]),
        ),
    );
    b.push(
        entry(
            "mbedColour_picker",
            block(&[], "value", "colour", &["Colour"], vec![named("COLOUR", field("colour"))]),
        ),
    );
    b.push(
        entry(
            "mbedImage_image",
            block(&[], "value", "image", &["Image"], vec![named("IMAGE", field("matrix"))]),
        ),
    );
    proof {
        assert(b@.map_values(|e: (String, BlockDef)| (e.0@, e.1@)) =~~= spec_builtin_blocks());
    }
    b
}

fn spec_entry(id: &str, spec: &str) -> (r: (String, String))
    ensures
        r.0@ == id@,
        r.1@ == spec@,
{
    (to_string(id), to_string(spec))
}

fn options(field: &str, items: &[&str]) -> (r: (String, Vec<String>))
    ensures
        r.0@ == field@,
        strings_view(r.1@) == items@.map_values(|s: &str| s@),
{
    (to_string(field), strs(items))
}

fn dropdown(id: &str, fields: Vec<(String, Vec<String>)>) -> (r: (String, Vec<(String, Vec<String>)>))
    ensures
        r.0@ == id@,
        r.1 == fields,
{
    (to_string(id), fields)
}

/// A locale's wording per block id, compiled.
pub open spec fn wording(texts: Seq<(Seq<char>, Seq<char>)>) -> Seq<(Seq<char>, Seq<Seq<TokenV>>)> {
    texts.map_values(|e: (Seq<char>, Seq<char>)| (e.0, spec_compile(e.1)))
}

/// Alternative wordings, flattened in order: block id with each compiled
/// alternative.
pub open spec fn alternatives(a: Seq<(Seq<char>, Seq<Seq<char>>)>) -> Seq<(Seq<char>, Seq<Seq<TokenV>>)>
    decreases a.len(),
{
    if a.len() == 0 {
        Seq::empty()
    } else {
        alternatives(a.drop_last()) + a.last().1.map_values(
            |t: Seq<char>| (a.last().0, spec_compile(t)),
        )
    }
}

/// German, Open Roberta's own wording.
pub open spec fn german_wording() -> Seq<(Seq<char>, Seq<char>)> {
    seq![
            ("mbedControls_start"@, "Start"@),
            ("mbedActions_display_text"@, "Zeige %TYPE %OUT"@),
            ("mbedActions_display_image"@, "Zeige %TYPE %PICTURE"@),
            ("mbedActions_display_clear"@, "Lösche Bildschirm"@),
            ("mbedActions_play_note"@, "Spiele %DURATION %NOTE"@),
            ("mbedActions_leds_on"@, "Schalte RGB LED an Farbe %COLOR"@),
            ("mbedActions_leds_off"@, "Schalte RGB LED aus"@),
            ("robSensors_key_isPressed"@, "Taste %KEY gedrückt?"@),
            ("robSensors_pintouch_isPressed"@, "Pin %PIN gedrückt?"@),
            ("mbedSensors_timer_reset"@, "Setze Zeitgeber %TIMER zurück"@),
            ("robControls_loopForever"@, "Wiederhole unendlich oft | mache %DO"@),
            ("controls_repeat_ext"@, "Wiederhole %TIMES mal | mache %DO"@),
            ("robControls_if"@, "wenn %IF0 | mache %DO0"@),
            ("robControls_ifElse"@, "wenn %IF0 | mache %DO0 | sonst %ELSE"@),
            ("robControls_wait_time"@, "Warte ms %WAIT"@),
            ("robControls_wait_for"@, "Warte bis %WAIT"@),
            ("logic_boolean"@, "%BOOL"@),
            ("text_text"@, "%TEXT"@),
            ("mbedColour_picker"@, "%COLOUR"@),
            ("mbedImage_image"@, "%IMAGE"@),
        ]
}

pub open spec fn german_alternatives() -> Seq<(Seq<char>, Seq<Seq<char>>)> {
    seq![
            ("mbedControls_start"@, seq!["Programmstart"@]),
            ("mbedActions_leds_on"@, seq!["Schalte RGB LED an %COLOR"@]),
            ("robControls_loopForever"@, seq!["Wiederhole fortlaufend | mache %DO"@]),
        ]
}

pub open spec fn german_dropdowns() -> Seq<(Seq<char>, Seq<(Seq<char>, Seq<Seq<char>>)>)> {
    seq![
            ("mbedActions_display_text"@, seq![("TYPE"@, seq!["Text"@, "Zeichen"@])]),
            ("mbedActions_display_image"@, seq![("TYPE"@, seq!["Bild"@, "Animation"@])]),
            ("mbedActions_play_note"@, seq![
                ("DURATION"@, seq!["ganze Note"@, "halbe Note"@, "Viertelnote"@, "Achtelnote"@,
                    "Sechzehntelnote"@]),
                ("NOTE"@, seq!["C4"@, "D4"@, "E4"@, "F4"@, "G4"@, "A4"@, "H4"@, "C5"@]),
            ]),
            ("robSensors_key_isPressed"@, seq![("KEY"@, seq!["A"@, "B"@, "A+B"@])]),
            ("robSensors_pintouch_isPressed"@, seq![("PIN"@, seq!["0"@, "1"@, "2"@, "3"@])]),
            ("mbedSensors_timer_reset"@, seq![("TIMER"@, seq!["1"@, "2"@, "3"@, "4"@, "5"@])]),
            ("logic_boolean"@, seq![("BOOL"@, seq!["wahr"@, "falsch"@])]),
        ]
}

pub open spec fn spec_german() -> LanguageV {
    LanguageV {
        code: "de"@,
        rtl: false,
        specs: wording(german_wording()),
        aliases: alternatives(german_alternatives()),
        dropdowns: german_dropdowns(),
    }
}

/// English.
pub open spec fn english_wording() -> Seq<(Seq<char>, Seq<char>)> {
    seq![
            ("mbedControls_start"@, "Start"@),
            ("mbedActions_display_text"@, "Show %TYPE %OUT"@),
            ("mbedActions_display_image"@, "Show %TYPE %PICTURE"@),
            ("mbedActions_display_clear"@, "Clear display"@),
            ("mbedActions_play_note"@, "Play %DURATION %NOTE"@),
            ("mbedActions_leds_on"@, "Turn RGB LED on colour %COLOR"@),
            ("mbedActions_leds_off"@, "Turn RGB LED off"@),
            ("robSensors_key_isPressed"@, "Key %KEY pressed?"@),
            ("robSensors_pintouch_isPressed"@, "Pin %PIN pressed?"@),
            ("mbedSensors_timer_reset"@, "Reset timer %TIMER"@),
            ("robControls_loopForever"@, "Repeat indefinitely | do %DO"@),
            ("controls_repeat_ext"@, "Repeat %TIMES times | do %DO"@),
            ("robControls_if"@, "if %IF0 | do %DO0"@),
            ("robControls_ifElse"@, "if %IF0 | do %DO0 | else %ELSE"@),
            ("robControls_wait_time"@, "Wait ms %WAIT"@),
            ("robControls_wait_for"@, "Wait until %WAIT"@),
            ("logic_boolean"@, "%BOOL"@),
            ("text_text"@, "%TEXT"@),
            ("mbedColour_picker"@, "%COLOUR"@),
            ("mbedImage_image"@, "%IMAGE"@),
        ]
}

pub open spec fn english_alternatives() -> Seq<(Seq<char>, Seq<Seq<char>>)> {
    seq![("mbedActions_leds_on"@, seq!["Turn RGB LED on %COLOR"@])]
}

pub open spec fn english_dropdowns() -> Seq<(Seq<char>, Seq<(Seq<char>, Seq<Seq<char>>)>)> {
    seq![
            ("mbedActions_display_text"@, seq![("TYPE"@, seq!["Text"@, "Character"@])]),
            ("mbedActions_display_image"@, seq![("TYPE"@, seq!["Image"@, "Animation"@])]),
            ("mbedActions_play_note"@, seq![
                ("DURATION"@, seq!["whole"@, "half"@, "quarter"@, "eighth"@, "sixteenth"@]),
                ("NOTE"@, seq!["C4"@, "D4"@, "E4"@, "F4"@, "G4"@, "A4"@, "B4"@, "C5"@]),
            ]),
            ("robSensors_key_isPressed"@, seq![("KEY"@, seq!["A"@, "B"@, "A+B"@])]),
            ("robSensors_pintouch_isPressed"@, seq![("PIN"@, seq!["0"@, "1"@, "2"@, "3"@])]),
            ("mbedSensors_timer_reset"@, seq![("TIMER"@, seq!["1"@, "2"@, "3"@, "4"@, "5"@])]),
            ("logic_boolean"@, seq![("BOOL"@, seq!["true"@, "false"@])]),
        ]
}

pub open spec fn spec_english() -> LanguageV {
    LanguageV {
        code: "en"@,
        rtl: false,
        specs: wording(english_wording()),
        aliases: alternatives(english_alternatives()),
        dropdowns: english_dropdowns(),
    }
}

/// The built-in catalog: its blocks, and German and English.
pub open spec fn spec_builtin_catalog() -> CatalogV {
    CatalogV {
        blocks: spec_builtin_blocks(),
        languages: seq![("de"@, spec_german()), ("en"@, spec_english())],
    }
}

/// The flattened alternatives of stored entries are those of their views.
proof fn lemma_alternatives(a: Seq<(String, Vec<String>)>, v: Seq<(Seq<char>, Seq<Seq<char>>)>)
    requires
        a.len() == v.len(),
        forall|i: int| 0 <= i < a.len() ==> (#[trigger] a[i]).0@ == v[i].0 && strings_view(a[i].1@) == v[i].1,
    ensures
        flat_aliases(a) == alternatives(v),
    decreases a.len(),
{
    if a.len() > 0 {
        let n = a.len() - 1;
        assert forall|i: int| 0 <= i < a.drop_last().len() implies (
        #[trigger] a.drop_last()[i]).0@ == v.drop_last()[i].0 && strings_view(a.drop_last()[i].1@)
            == v.drop_last()[i].1 by {
            assert(a.drop_last()[i] == a[i]);
        }
        lemma_alternatives(a.drop_last(), v.drop_last());
        assert(a[n].0@ == v[n].0);
        crate::model::lemma_strings_view(a.last().1@);
        assert(a.last().1@.map_values(|spec: String| (a.last().0@, spec_compile(spec@))) =~= v.last().1.map_values(
            |t: Seq<char>| (v.last().0, spec_compile(t)),
        ));
    }
}

/// German, Open Roberta's own wording.
pub(crate) fn german() -> (r: Language)
    ensures
        r@ == spec_german(),
{
    let specs = vec![
        spec_entry("mbedControls_start", "Start"),
        spec_entry("mbedActions_display_text", "Zeige %TYPE %OUT"),
        spec_entry("mbedActions_display_image", "Zeige %TYPE %PICTURE"),
        spec_entry("mbedActions_display_clear", "Lösche Bildschirm"),
        spec_entry("mbedActions_play_note", "Spiele %DURATION %NOTE"),
        spec_entry("mbedActions_leds_on", "Schalte RGB LED an Farbe %COLOR"),
        spec_entry("mbedActions_leds_off", "Schalte RGB LED aus"),
        spec_entry("robSensors_key_isPressed", "Taste %KEY gedrückt?"),
        spec_entry("robSensors_pintouch_isPressed", "Pin %PIN gedrückt?"),
        spec_entry("mbedSensors_timer_reset", "Setze Zeitgeber %TIMER zurück"),
        spec_entry("robControls_loopForever", "Wiederhole unendlich oft | mache %DO"),
        spec_entry("controls_repeat_ext", "Wiederhole %TIMES mal | mache %DO"),
        spec_entry("robControls_if", "wenn %IF0 | mache %DO0"),
        spec_entry("robControls_ifElse", "wenn %IF0 | mache %DO0 | sonst %ELSE"),
        spec_entry("robControls_wait_time", "Warte ms %WAIT"),
        spec_entry("robControls_wait_for", "Warte bis %WAIT"),
        spec_entry("logic_boolean", "%BOOL"),
        spec_entry("text_text", "%TEXT"),
        spec_entry("mbedColour_picker", "%COLOUR"),
        spec_entry("mbedImage_image", "%IMAGE"),
    ];
    let dropdowns = vec![
        dropdown("mbedActions_display_text", vec![options("TYPE", &["Text", "Zeichen"])]),
        dropdown("mbedActions_display_image", vec![options("TYPE", &["Bild", "Animation"])]),
        dropdown(
            "mbedActions_play_note",
            vec![
                options(
                    "DURATION",
                    &["ganze Note", "halbe Note", "Viertelnote", "Achtelnote", "Sechzehntelnote"],
                ),
                options("NOTE", &["C4", "D4", "E4", "F4", "G4", "A4", "H4", "C5"]),
            ],
        ),
        dropdown("robSensors_key_isPressed", vec![options("KEY", &["A", "B", "A+B"])]),
        dropdown("robSensors_pintouch_isPressed", vec![options("PIN", &["0", "1", "2", "3"])]),
        dropdown("mbedSensors_timer_reset", vec![options("TIMER", &["1", "2", "3", "4", "5"])]),
        dropdown("logic_boolean", vec![options("BOOL", &["wahr", "falsch"])]),
    ];
    let aliases = vec![
        options("mbedControls_start", &["Programmstart"]),
        options("mbedActions_leds_on", &["Schalte RGB LED an %COLOR"]),
        options("robControls_loopForever", &["Wiederhole fortlaufend | mache %DO"]),
    ];
    let ghost sv = specs@;
    let ghost dv = dropdowns@;
    let ghost av = aliases@;
    proof {
        assert(sv.map_values(|e: (String, String)| (e.0@, spec_compile(e.1@))) =~~= wording(
            german_wording(),
        ));
        assert(crate::catalog::dropdowns_view(dv) =~~= german_dropdowns());
        assert(strings_view(av[0].1@) =~= german_alternatives()[0].1);
        assert(strings_view(av[1].1@) =~= german_alternatives()[1].1);
        assert(strings_view(av[2].1@) =~= german_alternatives()[2].1);
        lemma_alternatives(av, german_alternatives());
    }
    Language::from_locale("de", None, specs, dropdowns, aliases)
}

/// English.
pub(crate) fn english() -> (r: Language)
    ensures
        r@ == spec_english(),
{
    let specs = vec![
        spec_entry("mbedControls_start", "Start"),
        spec_entry("mbedActions_display_text", "Show %TYPE %OUT"),
        spec_entry("mbedActions_display_image", "Show %TYPE %PICTURE"),
        spec_entry("mbedActions_display_clear", "Clear display"),
        spec_entry("mbedActions_play_note", "Play %DURATION %NOTE"),
        spec_entry("mbedActions_leds_on", "Turn RGB LED on colour %COLOR"),
        spec_entry("mbedActions_leds_off", "Turn RGB LED off"),
        spec_entry("robSensors_key_isPressed", "Key %KEY pressed?"),
        spec_entry("robSensors_pintouch_isPressed", "Pin %PIN pressed?"),
        spec_entry("mbedSensors_timer_reset", "Reset timer %TIMER"),
        spec_entry("robControls_loopForever", "Repeat indefinitely | do %DO"),
        spec_entry("controls_repeat_ext", "Repeat %TIMES times | do %DO"),
        spec_entry("robControls_if", "if %IF0 | do %DO0"),
        spec_entry("robControls_ifElse", "if %IF0 | do %DO0 | else %ELSE"),
        spec_entry("robControls_wait_time", "Wait ms %WAIT"),
        spec_entry("robControls_wait_for", "Wait until %WAIT"),
        spec_entry("logic_boolean", "%BOOL"),
        spec_entry("text_text", "%TEXT"),
        spec_entry("mbedColour_picker", "%COLOUR"),
        spec_entry("mbedImage_image", "%IMAGE"),
    ];
    let dropdowns = vec![
        dropdown("mbedActions_display_text", vec![options("TYPE", &["Text", "Character"])]),
        dropdown("mbedActions_display_image", vec![options("TYPE", &["Image", "Animation"])]),
        dropdown(
            "mbedActions_play_note",
            vec![
                options("DURATION", &["whole", "half", "quarter", "eighth", "sixteenth"]),
                options("NOTE", &["C4", "D4", "E4", "F4", "G4", "A4", "B4", "C5"]),
            ],
        ),
        dropdown("robSensors_key_isPressed", vec![options("KEY", &["A", "B", "A+B"])]),
        dropdown("robSensors_pintouch_isPressed", vec![options("PIN", &["0", "1", "2", "3"])]),
        dropdown("mbedSensors_timer_reset", vec![options("TIMER", &["1", "2", "3", "4", "5"])]),
        dropdown("logic_boolean", vec![options("BOOL", &["true", "false"])]),
    ];
    let aliases = vec![options("mbedActions_leds_on", &["Turn RGB LED on %COLOR"])];
    let ghost sv = specs@;
    let ghost dv = dropdowns@;
    let ghost av = aliases@;
    proof {
        assert(sv.map_values(|e: (String, String)| (e.0@, spec_compile(e.1@))) =~~= wording(
            english_wording(),
        ));
        assert(crate::catalog::dropdowns_view(dv) =~~= english_dropdowns());
        assert(strings_view(av[0].1@) =~= english_alternatives()[0].1);
        lemma_alternatives(av, english_alternatives());
    }
    Language::from_locale("en", None, specs, dropdowns, aliases)
}


} // verus!
