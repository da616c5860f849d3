use rotom::compiler::preprocessor::{preprocess, IncludeDirective};

#[test]
fn preprocess_removes_directives_but_preserves_line_numbers() {
    let source = r#"#include "constants/test.h"
#define TEST_VALUE 7
script Main #1:
    Message TEST_VALUE
End
"#;

    let result = preprocess(source);

    assert_eq!(
        result.includes,
        vec![IncludeDirective {
            path: "constants/test.h".to_string(),
            line_number: 1,
        }]
    );
    assert_eq!(
        result.cleaned_source,
        "\n\nscript Main #1:\n    Message TEST_VALUE\nEnd\n"
    );
}
