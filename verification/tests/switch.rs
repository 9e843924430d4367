use turbo_html2pdf_core::error::ErrorCode;
use turbo_html2pdf_core::template::switch::desugar;

fn err_of(src: &str) -> String {
    let e = desugar(src).unwrap_err();
    assert_eq!(e.code, ErrorCode::TemplateSyntax);
    e.message
}

#[test]
fn switch_becomes_if_chain() {
    let out = desugar(
        "{% switch x %}{% case 1 %}one{% case 2, 3 %}two{% default %}other{% endswitch %}",
    )
    .unwrap();
    assert_eq!(
        out,
        "{% set __tpdf_switch_0 = x %}{% if __tpdf_switch_0 == 1 %}one\
         {% elif __tpdf_switch_0 == 2 or __tpdf_switch_0 == 3 %}two{% else %}other{% endif %}"
    );
}

#[test]
fn template_without_switch_is_unchanged() {
    let src = "Hello {{ name }} {% if a %}b{% endif %} {%- for i in xs -%}{{ i }}{% endfor %}";
    assert_eq!(desugar(src).unwrap(), src);
    assert_eq!(desugar("").unwrap(), "");
    assert_eq!(desugar("{% unclosed").unwrap(), "{% unclosed");
}

#[test]
fn stray_switch_tags_are_errors() {
    assert_eq!(err_of("{% case 1 %}"), "{% case %} outside of {% switch %}");
    assert_eq!(err_of("a{% default %}"), "{% default %} outside of {% switch %}");
    assert_eq!(err_of("{% endswitch %}"), "{% endswitch %} without {% switch %}");
}

#[test]
fn malformed_switches_are_errors() {
    assert_eq!(err_of("{% switch x %}{% case 1 %}a"), "unterminated {% switch %}");
    assert_eq!(
        err_of("{% switch x %}{% default %}a{% case 1 %}b{% endswitch %}"),
        "{% case %} after {% default %}"
    );
    assert_eq!(
        err_of("{% switch x %}{% default %}a{% default %}b{% endswitch %}"),
        "multiple {% default %} in {% switch %}"
    );
    assert_eq!(
        err_of("{% switch x %}text{% case 1 %}a{% endswitch %}"),
        "text before first {% case %} in {% switch %}"
    );
}

#[test]
fn first_error_wins() {
    assert_eq!(
        err_of("{% switch x %}text{% default %}a{% case 1 %}b"),
        "text before first {% case %} in {% switch %}"
    );
}

#[test]
fn whitespace_markers_trim_adjacent_text() {
    let out = desugar("A\n{%- switch x -%}\n{% case 1 -%}\n one \n{%- endswitch -%}\nB").unwrap();
    assert_eq!(
        out,
        "A{% set __tpdf_switch_0 = x %}{% if __tpdf_switch_0 == 1 %}one{% endif %}B"
    );
}

#[test]
fn nested_switches_get_fresh_names() {
    let out = desugar(
        "{% switch a %}{% case 1 %}{% switch b %}{% case 2 %}x{% endswitch %}{% endswitch %}",
    )
    .unwrap();
    assert_eq!(
        out,
        "{% set __tpdf_switch_0 = a %}{% if __tpdf_switch_0 == 1 %}\
         {% set __tpdf_switch_1 = b %}{% if __tpdf_switch_1 == 2 %}x{% endif %}{% endif %}"
    );
}

#[test]
fn case_values_split_only_at_top_level_commas() {
    let out = desugar("{% switch v %}{% case f(1, 2), [3, 4], 'x' %}y{% endswitch %}").unwrap();
    assert_eq!(
        out,
        "{% set __tpdf_switch_0 = v %}{% if __tpdf_switch_0 == f(1, 2) or \
         __tpdf_switch_0 == [3, 4] or __tpdf_switch_0 == 'x' %}y{% endif %}"
    );
}

#[test]
fn default_only_and_empty_switches() {
    assert_eq!(
        desugar("{% switch x %}{% default %}d{% endswitch %}").unwrap(),
        "{% set __tpdf_switch_0 = x %}{% if true %}d{% endif %}"
    );
    assert_eq!(
        desugar("{% switch x %}{% endswitch %}").unwrap(),
        "{% set __tpdf_switch_0 = x %}"
    );
}
