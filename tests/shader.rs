use gunship::shader::{ParseShaderError, ShaderParser};

const TWO_PROGRAMS: &str = "program vert {\n    void main() { gl_Position = pos; }\n}\n\nprogram frag {\n  color = vec4(1.0);\n}\n";

#[test]
fn parse_reads_two_programs() {
    let programs = ShaderParser::parse(TWO_PROGRAMS).unwrap();
    assert_eq!(programs.len(), 2);
    assert_eq!(programs[0].name, "vert");
    assert_eq!(programs[0].src, "void main() { gl_Position = pos; }");
    assert_eq!(programs[1].name, "frag");
    assert_eq!(programs[1].src, "color = vec4(1.0);");
}

#[test]
fn parse_program_returns_closing_brace_from_opening_brace() {
    let (program, close) = ShaderParser::parse_program("  program a {x}tail").unwrap();
    assert_eq!(program.name, "a");
    assert_eq!(program.src, "x");
    assert_eq!(close, 2);
    let (program, close) = ShaderParser::parse_program("program vert { x }").unwrap();
    assert_eq!(program.name, "vert");
    assert_eq!(program.src, "x");
    assert_eq!(close, 4);
}

#[test]
fn parse_program_keeps_empty_source() {
    let (program, close) = ShaderParser::parse_program("program empty {   }").unwrap();
    assert_eq!(program.name, "empty");
    assert_eq!(program.src, "");
    assert_eq!(close, 4);
}

#[test]
fn parse_program_errors() {
    assert_eq!(ShaderParser::parse_program("nothing here").err(), Some(ParseShaderError::NoVertProgram));
    assert_eq!(ShaderParser::parse_program("program").err(), Some(ParseShaderError::ProgramMissingName));
    assert_eq!(ShaderParser::parse_program("program \n ").err(), Some(ParseShaderError::ProgramMissingName));
    assert_eq!(ShaderParser::parse_program("program vert").err(), Some(ParseShaderError::MissingOpeningBrace));
    assert_eq!(ShaderParser::parse_program("program vert { { }").err(), Some(ParseShaderError::UnmatchedBraces));
}

#[test]
fn parse_needs_a_second_program() {
    assert_eq!(
        ShaderParser::parse("program vert { a }").err(),
        Some(ParseShaderError::NoVertProgram)
    );
    assert_eq!(
        ShaderParser::parse("program vert { a } program frag { b").err(),
        Some(ParseShaderError::UnmatchedBraces)
    );
}

#[test]
fn braces_contents_nest() {
    let (contents, close) = ShaderParser::parse_braces_contents("{a{b}c}d").unwrap();
    assert_eq!(contents, "a{b}c");
    assert_eq!(close, 6);
    let (contents, close) = ShaderParser::parse_braces_contents("{}").unwrap();
    assert_eq!(contents, "");
    assert_eq!(close, 1);
    assert_eq!(
        ShaderParser::parse_braces_contents("{{}").err(),
        Some(ParseShaderError::UnmatchedBraces)
    );
}

#[test]
fn non_ascii_text_is_counted_in_characters() {
    let (program, close) = ShaderParser::parse_program("é program ü {ß}").unwrap();
    assert_eq!(program.name, "ü");
    assert_eq!(program.src, "ß");
    assert_eq!(close, 2);
}

#[test]
fn stage_sources_picks_vert_and_frag() {
    let programs = ShaderParser::parse("program frag { f } program vert { v }").unwrap();
    assert_eq!(ShaderParser::stage_sources(&programs), Ok(("v", "f")));
    let programs = ShaderParser::parse("program vert { v } program other { o }").unwrap();
    assert_eq!(ShaderParser::stage_sources(&programs), Err(ParseShaderError::NoFragProgram));
    let programs = ShaderParser::parse("program a { 1 } program b { 2 }").unwrap();
    assert_eq!(ShaderParser::stage_sources(&programs), Err(ParseShaderError::NoVertProgram));
}
