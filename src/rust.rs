use vstd::prelude::*;

verus! {

/// Structural rule for category declarations: binds `STRUCT`, `FIELD` and
/// `FAKER` (the category token, bare or quoted) for each `#[pii_mask(..)]`
/// attribute that precedes a field of a struct whose attributes, just
/// before it, name `PIIMask`.
pub const STRUCT_ANNOTATIONS_RULE: &'static str = r#"
rule:
  kind: attribute_item
  regex: ^#\[pii_mask
  has:
    kind: attribute
    has:
      kind: token_tree
      has:
        any:
          - kind: string_literal
            pattern: $FAKER
          - kind: identifier
            pattern: $FAKER
            not:
              regex: ^faker$
  precedes:
    kind: field_declaration
    has:
      kind: field_identifier
      pattern: $FIELD
    inside:
      kind: field_declaration_list
      inside:
        kind: struct_item
        follows:
          kind: attribute_item
          regex: PIIMask
        has:
          kind: type_identifier
          pattern: $STRUCT
"#;

/// Structural rule for literals in tests: binds `STRUCT`, `FIELD` and `VALUE`
/// for each string or integer literal given to a field of a struct literal,
/// directly or as the argument of a call, inside a `let` of a function whose
/// name starts with `test_`.
pub const EXPECTATIONS_RULE: &'static str = r#"
rule:
  any:
    - any:
        - kind: string_literal
        - kind: integer_literal
      pattern: $VALUE
      inside:
        any:
        - kind: arguments
          inside:
            any:
              - kind: call_expression
                inside:
                  kind: field_initializer
                  has:
                    kind: field_identifier
                    pattern: $FIELD
                  inside:
                    kind: field_initializer_list
                    follows:
                      kind: type_identifier
                      pattern: $STRUCT
                      inside:
                        kind: let_declaration
                        stopBy: end
                        inside:
                          kind: block
                          inside:
                            kind: function_item
                            regex: test_
                            stopBy: end
        - kind: field_initializer
          has:
            kind: field_identifier
            pattern: $FIELD
          inside:
            kind: field_initializer_list
            follows:
              kind: type_identifier
              pattern: $STRUCT
              inside:
                kind: let_declaration
                stopBy: end
                inside:
                  kind: block
                  inside:
                    kind: function_item
                    regex: test_
                    stopBy: end
        - kind: field_initializer
          has:
            kind: field_identifier
            pattern: $FIELD
          inside:
            kind: field_initializer_list
            follows:
              kind: type_identifier
              pattern: $STRUCT
              inside:
                kind: let_declaration
                stopBy: end
                inside:
                  kind: block
                  inside:
                    kind: function_item
                    regex: test_
                    stopBy: end
        - kind: field_expression
          inside:
            kind: call_expression
            inside:
              kind: field_initializer
              has:
                kind: field_identifier
                pattern: $FIELD
              inside:
                kind: field_initializer_list
                follows:
                  kind: type_identifier
                  pattern: $STRUCT
                  inside:
                    kind: let_declaration
                    stopBy: end
                    inside:
                      kind: block
                      inside:
                        kind: function_item
                        regex: test_
                        stopBy: end
"#;

/// The Rust source language, for which the structural rules are written.
#[derive(Debug, PartialEq, Eq, Structural, Clone, Copy)]
pub enum Rust {
    Rs,
}

impl Rust {
    /// The rule that finds category declarations.
    pub fn struct_annotations_rule(&self) -> (r: &'static str)
        ensures
            r@ == STRUCT_ANNOTATIONS_RULE@,
    {
        STRUCT_ANNOTATIONS_RULE
    }

    /// The rule that finds literals assigned to struct fields in tests.
    pub fn expectations_rule(&self) -> (r: &'static str)
        ensures
            r@ == EXPECTATIONS_RULE@,
    {
        EXPECTATIONS_RULE
    }
}

} // verus!
