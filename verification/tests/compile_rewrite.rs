use bitcode_pipeline::compile::{compile_action, compile_to_llvm, rewrite_command, CompileAction, CompileUnit};
use bitcode_pipeline::model::{Collection, Configuration};

fn config() -> Configuration {
    Configuration {
        callpass_library_path: String::from("/opt/callpass.so"),
        debug: false,
        original_cxx_executable: String::from("/usr/bin/c++"),
        original_cc_executable: String::from("/usr/bin/cc"),
        targeted_cxx_executable: String::from("clang++"),
        targeted_cc_executable: String::from("clang"),
        llvm_link_executable: String::from("llvm-link"),
        cmaker_executable: String::from("cmaker"),
        cmake_executable: String::from("cmake"),
        remake_executable: String::from("remake"),
    }
}

fn unit(command: &str) -> CompileUnit {
    rewrite_command(command, &config(), "/w/rz_build/objects").unwrap()
}

#[test]
fn rewrite_substitutes_the_c_compiler_and_the_output() {
    let u = unit("/usr/bin/cc -c /src/a.c -o /build/a.o");
    assert_eq!(u.key, "%2Fbuild%2Fa.o");
    assert_eq!(u.command, " clang -emit-llvm  -c /src/a.c -o /w/rz_build/objects/%2Fbuild%2Fa.o");
}

#[test]
fn rewrite_substitutes_the_cxx_compiler() {
    let u = unit("/usr/bin/c++ -O2 -o x.o -c x.cpp");
    assert_eq!(u.key, "x.o");
    assert_eq!(u.command, " clang++ -emit-llvm  -O2 -o /w/rz_build/objects/x.o -c x.cpp");
}

#[test]
fn rewrite_leaves_other_programs_alone() {
    let u = unit("gcc -o a.o a.c");
    assert_eq!(u.key, "a.o");
    assert_eq!(u.command, " gcc -o /w/rz_build/objects/a.o a.c");
}

#[test]
fn rewrite_without_output_gives_nothing() {
    assert!(rewrite_command("/usr/bin/cc -c a.c", &config(), "/o").is_none());
    assert!(rewrite_command("", &config(), "/o").is_none());
    assert!(rewrite_command("/usr/bin/cc -c a.c -o", &config(), "/o").is_none());
}

#[test]
fn rewrite_takes_the_last_output_named() {
    let u = unit("/usr/bin/cc -o a.o -o b.o");
    assert_eq!(u.key, "b.o");
    assert_eq!(u.command, " clang -emit-llvm  -o /w/rz_build/objects/a.o -o /w/rz_build/objects/b.o");
}

#[test]
fn rewrite_of_a_repeated_flag() {
    let u = unit("cc -o -o x.o");
    assert_eq!(u.key, "x.o");
    assert_eq!(u.command, " cc -o -o /w/rz_build/objects/x.o");
}

#[test]
fn rewrite_when_the_output_is_named_like_the_compiler() {
    let u = unit("gcc -o /usr/bin/cc a.c b.c");
    assert_eq!(u.key, "%2Fusr%2Fbin%2Fcc");
    assert_eq!(u.command, " gcc -o clang -emit-llvm  /w/rz_build/objects/a.c b.c");
}

#[test]
fn rewrite_collapses_whitespace_between_tokens() {
    let u = unit("  gcc\t-o   a.o\n");
    assert_eq!(u.command, " gcc -o /w/rz_build/objects/a.o");
}

#[test]
fn rewrite_encodes_the_output_path() {
    let u = unit("gcc -o /b/é<1>.o");
    assert_eq!(u.key, "%2Fb%2F%C3%A9%3C1%3E.o");
    assert_eq!(u.command, " gcc -o /w/rz_build/objects/%2Fb%2F%C3%A9%3C1%3E.o");
}

#[test]
fn compile_stage_has_one_unit_per_command() {
    let collection = Collection {
        objects: Vec::new(),
        scripts: Vec::new(),
        compile: vec![
            String::from("/usr/bin/cc -c a.c -o /b/a.o"),
            String::from("/usr/bin/cc -c b.c"),
            String::from("/usr/bin/c++ -c c.cpp -o /b/c.o"),
        ],
    };
    let units = compile_to_llvm(&collection, &config(), "/o");
    assert_eq!(units.len(), 3);
    let first = units[0].as_ref().unwrap();
    assert_eq!(first.key, "%2Fb%2Fa.o");
    assert_eq!(first.command, " clang -emit-llvm  -c a.c -o /o/%2Fb%2Fa.o");
    assert!(units[1].is_none());
    let third = units[2].as_ref().unwrap();
    assert_eq!(third.key, "%2Fb%2Fc.o");
    assert_eq!(third.command, " clang++ -emit-llvm  -c c.cpp -o /o/%2Fb%2Fc.o");
}

#[test]
fn compile_stage_of_no_commands() {
    let collection = Collection { objects: Vec::new(), scripts: Vec::new(), compile: Vec::new() };
    assert!(compile_to_llvm(&collection, &config(), "/o").is_empty());
}

#[test]
fn a_cached_unit_is_not_compiled() {
    let u = unit("/usr/bin/cc -c a.c -o a.o");
    assert!(matches!(compile_action(&u, true), CompileAction::UseCached));
}

#[test]
fn an_absent_unit_is_compiled_with_the_rewritten_command() {
    let u = unit("/usr/bin/cc -c a.c -o a.o");
    match compile_action(&u, false) {
        CompileAction::Invoke(args) => {
            assert_eq!(args, vec!["clang", "-emit-llvm", "-c", "a.c", "-o", "/w/rz_build/objects/a.o"]);
        }
        CompileAction::UseCached => panic!("the unit is not in the store"),
    }
}
