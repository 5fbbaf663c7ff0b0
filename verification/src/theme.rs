//! Open Roberta's palette (`Blockly.CAT_*_RGB` and `Blockly.DATA_TYPE` in
//! `core/constants.js`).
use vstd::prelude::*;
use crate::textutil::{str_eq, str_starts_with};

verus! {

#[derive(Clone, Copy)]
pub struct BlockColours {
    /// Body fill: Open Roberta draws blocks as a flat fill.
    pub fill: &'static str,
    /// Only used by the `print` theme, which needs an outline to survive on
    /// paper. `None` means "no stroke".
    pub stroke: Option<&'static str>,
    /// `.blocklyText`
    pub text: &'static str,
    /// `.blocklyEditableText > rect`: white at 60% over the block fill.
    pub field_fill: &'static str,
    pub field_fill_opacity: &'static str,
    /// `.blocklyEditableText > text`
    pub field_text: &'static str,
}

/// `Blockly.CAT_*_RGB`
pub open spec fn spec_category_colour(category: Seq<char>) -> Seq<char> {
    if category == "activity"@ {
        "#E2001A"@
    } else if category == "action"@ {
        "#F29400"@
    } else if category == "control"@ {
        "#EB6A0A"@
    } else if category == "sensor"@ {
        "#8FA402"@
    } else if category == "colour"@ {
        "#EBC300"@
    } else if category == "image"@ {
        "#DF01D7"@
    } else if category == "text"@ {
        "#BACC1E"@
    } else if category == "math"@ {
        "#005A94"@
    } else if category == "logic"@ {
        "#33B8CA"@
    } else if category == "list"@ {
        "#39378B"@
    } else if category == "variable"@ {
        "#9085BA"@
    } else if category == "procedure"@ {
        "#179C7D"@
    } else if category == "communication"@ {
        "#FF69B4"@
    } else if category == "neural-network"@ || category == "nn"@ {
        "#00B6AC"@
    } else {
        "#666666"@
    }
}

pub fn category_colour(category: &str) -> (r: &'static str)
    ensures
        r@ == spec_category_colour(category@),
{
    if str_eq(category, "activity") {
        "#E2001A"
    } else if str_eq(category, "action") {
        "#F29400"
    } else if str_eq(category, "control") {
        "#EB6A0A"
    } else if str_eq(category, "sensor") {
        "#8FA402"
    } else if str_eq(category, "colour") {
        "#EBC300"
    } else if str_eq(category, "image") {
        "#DF01D7"
    } else if str_eq(category, "text") {
        "#BACC1E"
    } else if str_eq(category, "math") {
        "#005A94"
    } else if str_eq(category, "logic") {
        "#33B8CA"
    } else if str_eq(category, "list") {
        "#39378B"
    } else if str_eq(category, "variable") {
        "#9085BA"
    } else if str_eq(category, "procedure") {
        "#179C7D"
    } else if str_eq(category, "communication") {
        "#FF69B4"
    } else if str_eq(category, "neural-network") || str_eq(category, "nn") {
        "#00B6AC"
    } else {
        "#666666"
    }
}

/// `Blockly.DATA_TYPE[...]`: the colour a typed connection is drawn in.
pub open spec fn spec_data_type_colour(data_type: Seq<char>) -> Seq<char> {
    if data_type == "Number"@ {
        "#005A94"@
    } else if data_type == "String"@ {
        "#BACC1E"@
    } else if data_type == "Boolean"@ {
        "#33B8CA"@
    } else if data_type == "Colour"@ {
        "#EBC300"@
    } else if data_type == "Connection"@ {
        "#FF69B4"@
    } else if data_type == "Sensor"@ {
        "#8FA402"@
    } else if data_type == "Image"@ {
        "#DF01D7"@
    } else if data_type == "Actor"@ {
        "#F29400"@
    } else if data_type.len() >= 5 && data_type.take(5) == "Array"@ {
        "#39378B"@
    } else {
        "#666666"@
    }
}

pub fn data_type_colour(data_type: &str) -> (r: &'static str)
    ensures
        r@ == spec_data_type_colour(data_type@),
{
    proof {
        reveal_strlit("Array");
    }
    if str_eq(data_type, "Number") {
        "#005A94"
    } else if str_eq(data_type, "String") {
        "#BACC1E"
    } else if str_eq(data_type, "Boolean") {
        "#33B8CA"
    } else if str_eq(data_type, "Colour") {
        "#EBC300"
    } else if str_eq(data_type, "Connection") {
        "#FF69B4"
    } else if str_eq(data_type, "Sensor") {
        "#8FA402"
    } else if str_eq(data_type, "Image") {
        "#DF01D7"
    } else if str_eq(data_type, "Actor") {
        "#F29400"
    } else if str_starts_with(data_type, "Array") {
        "#39378B"
    } else {
        "#666666"
    }
}

/// The colours a block of `category` is painted in under `theme`.
///
/// `print` is black outlines on white; every other theme is Open Roberta's
/// flat category fill with translucent white field boxes.
pub fn colours_for(category: &str, theme: &str) -> (r: BlockColours)
    ensures
        theme@ == "print"@ ==> {
            &&& r.fill@ == "#ffffff"@
            &&& r.stroke is Some && r.stroke->0@ == "#000000"@
            &&& r.text@ == "#000000"@
            &&& r.field_fill@ == "#ffffff"@
            &&& r.field_fill_opacity@ == "1"@
            &&& r.field_text@ == "#000000"@
        },
        theme@ != "print"@ ==> {
            &&& r.fill@ == spec_category_colour(category@)
            &&& r.stroke is None
            &&& r.text@ == "#ffffff"@
            &&& r.field_fill@ == "#ffffff"@
            &&& r.field_fill_opacity@ == "0.6"@
            &&& r.field_text@ == "#000000"@
        },
{
    if str_eq(theme, "print") {
        return BlockColours {
            fill: "#ffffff",
            stroke: Some("#000000"),
            text: "#000000",
            field_fill: "#ffffff",
            field_fill_opacity: "1",
            field_text: "#000000",
        };
    }
    BlockColours {
        fill: category_colour(category),
        stroke: None,
        text: "#ffffff",
        field_fill: "#ffffff",
        field_fill_opacity: "0.6",
        field_text: "#000000",
    }
}

pub open spec fn spec_connection_colour(data_type: Seq<char>, theme: Seq<char>) -> Seq<char> {
    if theme == "print"@ {
        "#000000"@
    } else {
        spec_data_type_colour(data_type)
    }
}

/// In `print` the typed connections lose their colour coding, so they are
/// drawn black like everything else.
pub fn connection_colour(data_type: &str, theme: &str) -> (r: &'static str)
    ensures
        r@ == spec_connection_colour(data_type@, theme@),
{
    if str_eq(theme, "print") {
        "#000000"
    } else {
        data_type_colour(data_type)
    }
}

/// The categories Open Roberta colours.
pub open spec fn known_category(category: Seq<char>) -> bool {
    ||| category == "activity"@
    ||| category == "action"@
    ||| category == "control"@
    ||| category == "sensor"@
    ||| category == "colour"@
    ||| category == "image"@
    ||| category == "text"@
    ||| category == "math"@
    ||| category == "logic"@
    ||| category == "list"@
    ||| category == "variable"@
    ||| category == "procedure"@
    ||| category == "communication"@
    ||| category == "neural-network"@
    ||| category == "nn"@
}

/// Only a category Open Roberta does not know is drawn in the grey
/// fallback; every known one has a colour of its own.
pub proof fn law_only_unknown_categories_are_grey(category: Seq<char>)
    ensures
        spec_category_colour(category) == "#666666"@ <==> !known_category(category),
{
    reveal_strlit("#666666");
    reveal_strlit("#E2001A");
    reveal_strlit("#F29400");
    reveal_strlit("#EB6A0A");
    reveal_strlit("#8FA402");
    reveal_strlit("#EBC300");
    reveal_strlit("#DF01D7");
    reveal_strlit("#BACC1E");
    reveal_strlit("#005A94");
    reveal_strlit("#33B8CA");
    reveal_strlit("#39378B");
    reveal_strlit("#9085BA");
    reveal_strlit("#179C7D");
    reveal_strlit("#FF69B4");
    reveal_strlit("#00B6AC");
    let c = spec_category_colour(category);
    if known_category(category) {
        assert(c[1] != '6');
        assert("#666666"@[1] == '6');
    }
}

/// A typed connection is drawn in the colour of the category its values
/// come from: numbers in the maths colour, strings in the text colour,
/// truth values in the logic colour, and so on for colours, images,
/// sensors, actors, connections and lists.
pub proof fn law_types_share_their_category_colour()
    ensures
        spec_data_type_colour("Number"@) == spec_category_colour("math"@),
        spec_data_type_colour("String"@) == spec_category_colour("text"@),
        spec_data_type_colour("Boolean"@) == spec_category_colour("logic"@),
        spec_data_type_colour("Colour"@) == spec_category_colour("colour"@),
        spec_data_type_colour("Image"@) == spec_category_colour("image"@),
        spec_data_type_colour("Sensor"@) == spec_category_colour("sensor"@),
        spec_data_type_colour("Actor"@) == spec_category_colour("action"@),
        spec_data_type_colour("Connection"@) == spec_category_colour("communication"@),
        spec_data_type_colour("Array_Number"@) == spec_category_colour("list"@),
{
    reveal_strlit("activity");
    reveal_strlit("action");
    reveal_strlit("control");
    reveal_strlit("sensor");
    reveal_strlit("colour");
    reveal_strlit("image");
    reveal_strlit("text");
    reveal_strlit("math");
    reveal_strlit("logic");
    reveal_strlit("list");
    reveal_strlit("communication");
    reveal_strlit("variable");
    reveal_strlit("procedure");
    reveal_strlit("Number");
    reveal_strlit("String");
    reveal_strlit("Boolean");
    reveal_strlit("Colour");
    reveal_strlit("Connection");
    reveal_strlit("Sensor");
    reveal_strlit("Image");
    reveal_strlit("Actor");
    reveal_strlit("Array");
    reveal_strlit("Array_Number");
    assert("Array_Number"@.take(5) =~= "Array"@);
    assert("String"@[0] != "Number"@[0]);
    assert("Colour"@[0] != "Number"@[0]);
    assert("Colour"@[0] != "String"@[0]);
    assert("Sensor"@[0] != "Number"@[0]);
    assert("Sensor"@[1] != "String"@[1]);
    assert("Sensor"@[0] != "Colour"@[0]);
    assert("activity"@.len() == 8);
    assert("action"@.len() == 6);
    assert("control"@.len() == 7);
    assert("sensor"@.len() == 6);
    assert("colour"@.len() == 6);
    assert("image"@.len() == 5);
    assert("text"@.len() == 4);
    assert("math"@.len() == 4);
    assert("logic"@.len() == 5);
    assert("list"@.len() == 4);
    assert("variable"@.len() == 8);
    assert("procedure"@.len() == 9);
    assert("communication"@.len() == 13);
    assert("Number"@.len() == 6);
    assert("String"@.len() == 6);
    assert("Boolean"@.len() == 7);
    assert("Colour"@.len() == 6);
    assert("Connection"@.len() == 10);
    assert("Sensor"@.len() == 6);
    assert("Image"@.len() == 5);
    assert("Actor"@.len() == 5);
    assert("Array"@.len() == 5);
    assert("Array_Number"@.len() == 12);
    assert("Actor"@[0] != "Image"@[0]);
    assert("sensor"@[0] != "action"@[0]);
    assert("colour"@[0] != "action"@[0]);
    assert("colour"@[0] != "sensor"@[0]);
    assert("math"@[0] != "text"@[0]);
    assert("logic"@[0] != "image"@[0]);
    assert("list"@[0] != "text"@[0]);
    assert("list"@[0] != "math"@[0]);
}

} // verus!
