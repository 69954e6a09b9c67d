//! A sample page.

use crate::scan_sheet_layout::{HighLevelField, HighLevelKind, HighLevelPageDescription};
use vstd::prelude::*;
use vstd::string::StringExecFns;

verus! {

/// A page to try things out with: two checkboxes, a number of two digits,
/// and one more checkbox.
pub fn dummy() -> (page: HighLevelPageDescription)
    ensures
        page.well_formed(),
        page.document_title@ == "test1"@,
        page.fields@.len() == 4,
        page.fields@[0].kind == HighLevelKind::Boolean,
        page.fields@[0].descriptor@ == "boom"@,
        page.fields@[1].kind == HighLevelKind::Boolean,
        page.fields@[1].descriptor@ == "another"@,
        page.fields@[2].kind == HighLevelKind::SevenSegmentDisplay(2),
        page.fields@[2].descriptor@ == "another one"@,
        page.fields@[3].kind == HighLevelKind::Boolean,
        page.fields@[3].descriptor@ == "hardcore"@,
{
    let mut fields: Vec<HighLevelField> = Vec::new();
    fields.push(
        HighLevelField { kind: HighLevelKind::Boolean, descriptor: String::from_str("boom") },
    );
    fields.push(
        HighLevelField { kind: HighLevelKind::Boolean, descriptor: String::from_str("another") },
    );
    fields.push(
        HighLevelField {
            kind: HighLevelKind::SevenSegmentDisplay(2),
            descriptor: String::from_str("another one"),
        },
    );
    fields.push(
        HighLevelField { kind: HighLevelKind::Boolean, descriptor: String::from_str("hardcore") },
    );
    let page_description = HighLevelPageDescription {
        document_title: String::from_str("test1"),
        fields,
    };
    page_description
}

} // verus!
