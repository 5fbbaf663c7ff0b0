//! The library's own promises, on concrete values.

use nepo_wasm::catalog::{self, BlockDef, Catalog, FieldDef, Language, Pattern, Token};
use nepo_wasm::measure::{self, Widths};
use nepo_wasm::model::{BlockSpec, RowSpec, SegmentSpec};
use nepo_wasm::parser::{self, Request};
use nepo_wasm::{matrix, protocol, svg, theme, variables};

fn request(source: &str) -> Request {
    Request {
        code: source.to_string(),
        language: "de".to_string(),
        platform: "calliope".to_string(),
        theme: None,
        scale: None,
        font: String::new(),
        widths: None,
    }
}

fn ids(scripts: &[Vec<BlockSpec>]) -> Vec<Vec<String>> {
    scripts
        .iter()
        .map(|blocks| blocks.iter().map(|b| b.id.clone()).collect())
        .collect()
}

// -- Laws, on examples --------------------------------------------------------

#[test]
fn a_trailing_closing_word_changes_nothing() {
    for closer in ["Ende", "END", "}", "einde", "Fin"] {
        let with_end = parser::parse(
            &format!("Wiederhole 3 mal\n  Zeige Text \"A\"\n{closer}"),
            "de",
            "calliope",
        );
        let without_end = parser::parse("Wiederhole 3 mal\n  Zeige Text \"A\"", "de", "calliope");
        assert_eq!(
            format!("{:?}", with_end),
            format!("{:?}", without_end),
            "closing word {closer}"
        );
    }
}

#[test]
fn every_script_after_the_first_begins_with_start() {
    let scripts = parser::parse("Zeige Text \"A\"\nStart\nLösche Bildschirm\nStart", "de", "calliope")
        .expect("parse");
    assert_eq!(
        ids(&scripts),
        vec![
            vec!["mbedActions_display_text".to_string()],
            vec!["mbedControls_start".to_string(), "mbedActions_display_clear".to_string()],
            vec!["mbedControls_start".to_string()],
        ]
    );
}

#[test]
fn the_longest_matching_option_wins() {
    let scripts = parser::parse_request(&request("Taste A+B gedrückt?")).expect("parse");
    let dropdown = scripts[0][0].rows[0]
        .fields
        .iter()
        .find_map(|f| match f {
            nepo_wasm::debug::Field::Dropdown { value } => Some(value.clone()),
            _ => None,
        })
        .expect("dropdown");
    assert_eq!(dropdown, "A+B");
}

#[test]
fn a_block_only_the_calliope_offers_is_unknown_on_the_microbit() {
    assert!(parser::parse("Schalte RGB LED aus", "de", "calliope").is_ok());
    assert!(parser::parse("Schalte RGB LED aus", "de", "microbit").is_err());
    assert!(catalog::supports("mbedActions_leds_off", "calliope"));
    assert!(!catalog::supports("mbedActions_leds_off", "microbit"));
    assert!(catalog::supports("mbedControls_start", "microbit"));
    assert!(!catalog::supports("no_such_block", "calliope"));
}

// -- Errors ---------------------------------------------------------------------

#[test]
fn an_unknown_language_is_named() {
    let error = parser::parse("Start", "fr", "calliope").unwrap_err();
    assert_eq!(error, "nepo: unknown language 'fr'");
}

#[test]
fn an_unknown_line_lists_the_offered_blocks_in_order() {
    let error = parser::parse("Start\n\n  Fliege zum Mond", "de", "microbit").unwrap_err();
    assert_eq!(
        error,
        "nepo: line 3: no block on platform 'microbit' matches 'Fliege zum Mond'. Known blocks: \
         controls_repeat_ext, logic_boolean, mbedActions_display_clear, mbedActions_display_image, \
         mbedActions_display_text, mbedActions_play_note, mbedColour_picker, mbedControls_start, \
         mbedImage_image, mbedSensors_timer_reset, robControls_if, robControls_ifElse, \
         robControls_loopForever, robControls_wait_for, robControls_wait_time, \
         robSensors_key_isPressed, robSensors_pintouch_isPressed, text_text."
    );
}

fn field(kind: &str) -> FieldDef {
    FieldDef {
        kind: kind.to_string(),
        check: Vec::new(),
        default: None,
        values: Vec::new(),
        check_from: None,
        optional: false,
        align: None,
    }
}

fn def(fields: Vec<(String, FieldDef)>) -> BlockDef {
    BlockDef {
        platforms: Vec::new(),
        shape: "statement".to_string(),
        category: "action".to_string(),
        check: Vec::new(),
        check_from: None,
        check_prefix: None,
        connection: None,
        fields,
    }
}

fn small_catalog() -> (Catalog, Language) {
    let language = Language::from_locale(
        "de",
        None,
        vec![
            ("a".to_string(), "Mach %X".to_string()),
            ("b".to_string(), "Tu %Y".to_string()),
        ],
        Vec::new(),
        Vec::new(),
    );
    let catalog = Catalog {
        blocks: vec![
            ("a".to_string(), def(Vec::new())),
            ("b".to_string(), def(vec![("Y".to_string(), field("gadget"))])),
            ("c".to_string(), def(Vec::new())),
        ],
        languages: Vec::new(),
    };
    (catalog, language)
}

#[test]
fn every_build_error_names_its_cause() {
    let (cat, lang) = small_catalog();
    let none = Vec::new();
    assert_eq!(
        catalog::build_block_in(&cat, "zz", &lang, &none).unwrap_err(),
        "nepo: unknown block 'zz'"
    );
    assert_eq!(
        catalog::build_block_in(&cat, "c", &lang, &none).unwrap_err(),
        "nepo: block 'c' has no de pattern"
    );
    assert_eq!(
        catalog::build_block_in(&cat, "a", &lang, &none).unwrap_err(),
        "nepo: block 'a' has no field 'X' but its pattern uses it"
    );
    assert_eq!(
        catalog::build_block_in(&cat, "b", &lang, &none).unwrap_err(),
        "nepo: block 'b' field 'Y' has unknown kind 'gadget'"
    );
}

// -- Patterns and the catalog -----------------------------------------------------

#[test]
fn a_pattern_splits_into_rows_of_literals_and_placeholders() {
    let pattern = Pattern::compile("Wiederhole %TIMES mal | mache %DO");
    assert_eq!(pattern.rows.len(), 2);
    assert!(matches!(&pattern.rows[0][0], Token::Literal(t) if t == "Wiederhole"));
    assert!(matches!(&pattern.rows[0][1], Token::Field(t) if t == "TIMES"));
    assert!(matches!(&pattern.rows[0][2], Token::Literal(t) if t == "mal"));
    assert_eq!(pattern.fields(), vec!["TIMES".to_string(), "DO".to_string()]);
    // A `%` not followed by a name stays text.
    let percent = Pattern::compile("100 %");
    assert!(matches!(&percent.rows[0][0], Token::Literal(t) if t == "100 %"));
}

#[test]
fn dropdown_options_come_from_the_language() {
    let cat = catalog::catalog();
    let de = cat.language("de").expect("German");
    assert_eq!(
        de.dropdown_options("robSensors_key_isPressed", "KEY"),
        &["A".to_string(), "B".to_string(), "A+B".to_string()][..]
    );
    assert!(de.dropdown_options("robSensors_key_isPressed", "NONE").is_empty());
}

// -- Reading lines ------------------------------------------------------------------

#[test]
fn a_tab_counts_two_columns_and_comments_go() {
    let code: Vec<char> = "Start\n\t Zeige // gone\n\n   \n".chars().collect();
    let lines = parser::scan(&code);
    assert_eq!(lines.len(), 2);
    assert_eq!((lines[0].indent, lines[0].text.as_str(), lines[0].number), (0, "Start", 1));
    assert_eq!((lines[1].indent, lines[1].text.as_str(), lines[1].number), (3, "Zeige", 2));
}

#[test]
fn closing_words_ignore_case() {
    for word in ["Ende", "ENDE", "end", "}", "Einde", "FIN"] {
        assert!(parser::is_closer(word), "{word}");
    }
    for word in ["Endet", "Start", "", "{"] {
        assert!(!parser::is_closer(word), "{word}");
    }
}

#[test]
fn letters_match_in_any_case_also_beyond_ascii() {
    let scripts = parser::parse("LÖSCHE BILDSCHIRM", "de", "calliope").expect("parse");
    assert_eq!(ids(&scripts), vec![vec!["mbedActions_display_clear".to_string()]]);
}

#[test]
fn whitespace_in_a_pattern_matches_any_run_of_whitespace() {
    let scripts = parser::parse("Lösche    Bildschirm", "de", "calliope").expect("parse");
    assert_eq!(ids(&scripts), vec![vec!["mbedActions_display_clear".to_string()]]);
    assert!(parser::parse("LöscheBildschirm", "de", "calliope").is_err());
}

#[test]
fn colours_and_texts_in_their_forms() {
    assert!(parser::parse("Schalte RGB LED an (#00ff7A)", "de", "calliope").is_ok());
    assert!(parser::parse("Schalte RGB LED an (#00ff7)", "de", "calliope").is_err());
    for text in ["\"Hallo\"", "'Hallo'", "[Hallo]"] {
        let scripts = parser::parse_request(&request(&format!("Zeige Text {text}"))).expect("parse");
        let value = scripts[0][0].rows[0].value.as_ref().expect("text block");
        assert_eq!(
            value.rows[0].fields[0],
            nepo_wasm::debug::Field::Input { value: "Hallo".to_string() }
        );
    }
}

#[test]
fn a_matrix_needs_five_rows_of_five() {
    assert!(parser::parse("Zeige Bild (.#.#./.#.#./...../#...#/.###.)", "de", "calliope").is_ok());
    assert!(parser::parse("Zeige Bild (.#.#.|.#.#.|.....|#...#)", "de", "calliope").is_err());
    assert!(parser::parse("Zeige Bild (.#.#.|.#.#.|.....|#...#|.###)", "de", "calliope").is_err());
}

#[test]
fn a_block_without_a_mouth_is_followed_by_what_is_indented_under_it() {
    let scripts = parser::parse("Start\n  Warte ms\n  Lösche Bildschirm", "de", "calliope").expect("parse");
    assert_eq!(
        ids(&scripts),
        vec![vec![
            "mbedControls_start".to_string(),
            "robControls_wait_time".to_string(),
            "mbedActions_display_clear".to_string()
        ]]
    );
}

#[test]
fn english_has_its_own_alias() {
    let scripts = parser::parse("Turn RGB LED on (#ff0000)", "en", "calliope").expect("parse");
    assert_eq!(ids(&scripts), vec![vec!["mbedActions_leds_on".to_string()]]);
}

// -- Texts for the host ----------------------------------------------------------------

#[test]
fn extracted_texts_are_sorted_keys_each_once() {
    let texts = parser::extract_texts(&request("Start\nZeige Text\nStart")).expect("texts");
    assert_eq!(
        texts,
        vec![
            "prop\u{1}Start".to_string(),
            "prop\u{1}Text \u{25BE}".to_string(),
            "prop\u{1}Zeige".to_string(),
        ]
    );
}

#[test]
fn width_keys_carry_the_font() {
    assert_eq!(measure::width_key("A B", false), "prop\u{1}A B");
    assert_eq!(measure::width_key("0", true), "mono\u{1}0");
}

#[test]
fn host_widths_are_looked_up_by_key() {
    let mut widths = Widths::new();
    assert_eq!(widths.lookup(&"prop\u{1}Start".to_string()), None);
    widths.set_widths(vec![("prop\u{1}Start".to_string(), 7)]);
    assert_eq!(widths.lookup(&"prop\u{1}Start".to_string()), Some(7));
    widths.clear_widths();
    assert_eq!(widths.lookup(&"prop\u{1}Start".to_string()), None);
}

// -- Numbers and text in the SVG -------------------------------------------------------

#[test]
fn lengths_print_as_pixels_with_three_decimals_at_most() {
    assert_eq!(svg::fmt(3000), "1");
    assert_eq!(svg::fmt(4500), "1.5");
    assert_eq!(svg::fmt(1000), "0.333");
    assert_eq!(svg::fmt(-1500), "-0.5");
    assert_eq!(svg::fmt(0), "0");
}

#[test]
fn markup_characters_are_escaped() {
    assert_eq!(svg::escape_text("a<b & c>d"), "a&lt;b &amp; c&gt;d");
}

#[test]
fn array_types_share_one_colour() {
    assert_eq!(theme::data_type_colour("Array_Number"), "#39378B");
    assert_eq!(theme::data_type_colour("Arr"), "#666666");
    assert_eq!(theme::data_type_colour("Number"), "#005A94");
}

#[test]
fn a_scale_below_a_tenth_is_raised_to_a_tenth() {
    let mut small = request("Start");
    small.scale = Some(50);
    let mut tenth = request("Start");
    tenth.scale = Some(100);
    assert_eq!(
        parser::render_request(small).expect("render"),
        parser::render_request(tenth).expect("render")
    );
}

#[test]
fn an_empty_document_is_a_one_pixel_page() {
    let svg = parser::render_request(request("")).expect("render");
    assert!(svg.starts_with("<svg "));
    assert!(svg.contains("width=\"2\" height=\"2\""), "{svg}");
}

// -- Variables -------------------------------------------------------------------------

fn row(kind: &str, fields: Vec<SegmentSpec>, check: &[&str]) -> RowSpec {
    RowSpec {
        kind: kind.to_string(),
        align: "left".to_string(),
        fields,
        check: check.iter().map(|c| c.to_string()).collect(),
        value: None,
        body: Vec::new(),
    }
}

fn block(id: &str, check: &[&str], rows: Vec<RowSpec>) -> BlockSpec {
    BlockSpec {
        dialect: Some("nepo".to_string()),
        id: id.to_string(),
        shape: "statement".to_string(),
        category: "variables".to_string(),
        check: check.iter().map(|c| c.to_string()).collect(),
        segments: Vec::new(),
        rows,
    }
}

#[test]
fn a_declaration_types_every_use() {
    let declare = block(
        "robGlobalVariables_declare",
        &[],
        vec![row("value", vec![SegmentSpec::Input { value: "x".to_string() }], &["Number"])],
    );
    let get = block(
        "variables_get",
        &[],
        vec![row("dummy", vec![SegmentSpec::Dropdown { value: "x".to_string() }], &[])],
    );
    let set = block(
        "variables_set",
        &[],
        vec![row("value", vec![SegmentSpec::Dropdown { value: "x".to_string() }], &[])],
    );
    let other = block(
        "variables_get",
        &[],
        vec![row("dummy", vec![SegmentSpec::Dropdown { value: "y".to_string() }], &[])],
    );
    let mut scripts = vec![vec![declare], vec![get, set, other]];
    variables::apply_types(&mut scripts);
    assert_eq!(scripts[1][0].check, vec!["Number".to_string()]);
    assert_eq!(scripts[1][1].rows[0].check, vec!["Number".to_string()]);
    assert!(scripts[1][2].check.is_empty(), "an undeclared name stays untyped");
}

#[test]
fn a_list_block_hands_on_its_element_type() {
    let declare = block(
        "robGlobalVariables_declare",
        &[],
        vec![row("value", vec![SegmentSpec::Input { value: "l".to_string() }], &["Array_String"])],
    );
    let list = block(
        "variables_get",
        &[],
        vec![row("dummy", vec![SegmentSpec::Dropdown { value: "l".to_string() }], &[])],
    );
    let get_index = block(
        "robLists_getIndex",
        &[],
        vec![row(
            "dummy",
            vec![SegmentSpec::InlineValue { check: Vec::new(), value: Some(Box::new(list)) }],
            &[],
        )],
    );
    let mut scripts = vec![vec![declare, get_index]];
    variables::apply_types(&mut scripts);
    assert_eq!(scripts[0][1].check, vec!["String".to_string()]);
}

#[test]
fn without_declarations_nothing_changes() {
    let get = block(
        "variables_get",
        &["Number"],
        vec![row("dummy", vec![SegmentSpec::Dropdown { value: "x".to_string() }], &[])],
    );
    let mut scripts = vec![vec![get]];
    variables::apply_types(&mut scripts);
    assert_eq!(scripts[0][0].check, vec!["Number".to_string()]);
}

// -- The host protocol outside WebAssembly ------------------------------------------------

#[test]
fn outside_webassembly_nothing_is_read_or_sent() {
    assert!(protocol::read_args(12).is_empty());
    assert_eq!(protocol::send_bytes(vec![1, 2, 3]), 0);
    assert_eq!(protocol::send_string("svg".to_string()), 0);
    assert_eq!(protocol::send_error("nepo: broken".to_string()), 1);
}

#[test]
fn the_defaults_of_a_request() {
    assert_eq!(parser::default_language(), "de");
    assert_eq!(parser::default_platform(), "calliope");
}

// -- Choosing among wordings ---------------------------------------------------------------

fn tie_catalog() -> Catalog {
    let mut socket = field("value");
    socket.check = vec!["Number".to_string()];
    let language = Language::from_locale(
        "xx",
        None,
        vec![
            ("short".to_string(), "Go".to_string()),
            ("long".to_string(), "Go %X".to_string()),
            ("plain".to_string(), "Run".to_string()),
        ],
        Vec::new(),
        vec![("other".to_string(), vec!["Run".to_string()])],
    );
    Catalog {
        blocks: vec![
            ("short".to_string(), def(Vec::new())),
            ("long".to_string(), def(vec![("X".to_string(), socket)])),
            ("plain".to_string(), def(Vec::new())),
            ("other".to_string(), def(Vec::new())),
        ],
        languages: vec![("xx".to_string(), language)],
    }
}

#[test]
fn of_two_canonical_readings_the_one_with_more_tokens_wins() {
    let cat = tie_catalog();
    let scripts = parser::parse_with(&cat, "Go", "xx", "any").expect("parse");
    assert_eq!(ids(&scripts), vec![vec!["long".to_string()]]);
}

#[test]
fn the_canonical_wording_beats_an_alias() {
    let cat = tie_catalog();
    let scripts = parser::parse_with(&cat, "Run", "xx", "any").expect("parse");
    assert_eq!(ids(&scripts), vec![vec!["plain".to_string()]]);
}

// -- Layout ----------------------------------------------------------------------------------

#[test]
fn each_block_hangs_where_the_one_above_ends() {
    let scripts = parser::parse("Start\n  Lösche Bildschirm\n  Schalte RGB LED aus", "de", "calliope")
        .expect("parse");
    let widths = Widths::new();
    let stack = measure::layout_stack(&scripts[0], &widths);
    assert_eq!(stack.blocks.len(), 3);
    assert_eq!(stack.blocks[0].0, 0);
    for k in 0..2 {
        assert_eq!(stack.blocks[k + 1].0, stack.blocks[k].0 + stack.blocks[k].1.bottom + 3000);
    }
    for (_, block) in &stack.blocks {
        assert!(stack.width >= block.width);
    }
    assert!(stack.blocks.iter().any(|(_, block)| block.width == stack.width));
    let last = &stack.blocks[2].1;
    assert_eq!(last.own_height(), last.bottom + 3000 + if last.has_next { svg::NOTCH_DEPTH } else { 0 });
}

#[test]
fn a_typed_plug_widens_its_block_by_one_tab() {
    let rows = || {
        vec![row("dummy", vec![SegmentSpec::Text { value: "wahr".to_string(), monospace: false }], &[])]
    };
    let mut typed = block("logic_boolean", &["Boolean"], rows());
    typed.shape = "value".to_string();
    let mut untyped = block("logic_boolean", &[], rows());
    untyped.shape = "value".to_string();
    let widths = Widths::new();
    let a = measure::layout_block(&typed, &widths, false, false);
    let b = measure::layout_block(&untyped, &widths, false, false);
    assert_eq!(a.width, b.width + svg::TAB_WIDTH);
    assert_eq!(a.right_edge, b.right_edge);
    assert_eq!(a.bottom, b.bottom);
}

#[test]
fn escaped_text_reads_back_unchanged() {
    assert_eq!(svg::escape_text("&lt;"), "&amp;lt;");
    assert_eq!(svg::escape_text("plain"), "plain");
    assert_eq!(svg::escape_text(""), "");
}

fn has_matrix(block: &BlockSpec) -> bool {
    block.rows.iter().any(|row| {
        row.fields.iter().any(|field| match field {
            SegmentSpec::PixelMatrix { .. } => true,
            SegmentSpec::Block { block } => has_matrix(block),
            SegmentSpec::InlineValue { value: Some(inner), .. } => has_matrix(inner),
            _ => false,
        }) || row.value.as_ref().map_or(false, |v| has_matrix(v))
            || row.body.iter().any(has_matrix)
    })
}

#[test]
fn expansion_leaves_no_matrix_even_inside_an_inline_socket() {
    let image = |id: &str| {
        let mut b = block(
            id,
            &["Image"],
            vec![row("dummy", vec![SegmentSpec::PixelMatrix { rows: vec!["#...#".to_string()] }], &[])],
        );
        b.shape = "value".to_string();
        b
    };
    let mut outer = block(
        "mbedActions_display_image",
        &[],
        vec![row(
            "dummy",
            vec![SegmentSpec::InlineValue { check: vec!["Image".to_string()], value: Some(Box::new(image("mbedImage_image"))) }],
            &[],
        )],
    );
    assert!(has_matrix(&outer));
    matrix::expand(&mut outer);
    assert!(!has_matrix(&outer));
    assert_eq!(outer.id, "mbedActions_display_image");
    match &outer.rows[0].fields[0] {
        SegmentSpec::InlineValue { value: Some(inner), .. } => assert_eq!(inner.rows.len(), 6),
        other => panic!("inline socket lost: {:?}", other),
    }
}

fn ranking_catalog(canonical_a: &str) -> Catalog {
    let language = Language::from_locale(
        "de",
        None,
        vec![("a".to_string(), canonical_a.to_string()), ("b".to_string(), "Nimm %W".to_string())],
        vec![
            ("a".to_string(), vec![("V".to_string(), vec!["hallo".to_string()])]),
            ("b".to_string(), vec![("W".to_string(), vec!["hallo".to_string()])]),
        ],
        vec![("b".to_string(), vec!["Sag %W".to_string()])],
    );
    Catalog {
        blocks: vec![
            ("a".to_string(), def(vec![("V".to_string(), field("dropdown"))])),
            ("b".to_string(), def(vec![("W".to_string(), field("dropdown"))])),
        ],
        languages: vec![("de".to_string(), language)],
    }
}

#[test]
fn the_reading_with_more_tokens_wins_over_the_canonical_wording() {
    // `a` reads "Sag hallo" as one literal; the alias of `b` reads it as a
    // literal and a dropdown, two tokens.
    let cat = ranking_catalog("Sag hallo");
    let scripts = parser::parse_with(&cat, "Sag hallo", "de", "calliope").expect("parse");
    assert_eq!(scripts[0][0].id, "b");
}

#[test]
fn equally_long_readings_go_to_the_canonical_wording() {
    let cat = ranking_catalog("Sag %V");
    let scripts = parser::parse_with(&cat, "Sag hallo", "de", "calliope").expect("parse");
    assert_eq!(scripts[0][0].id, "a");
}
