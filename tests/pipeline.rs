use pyze::container::{build_args, check_exit, run_args, ContainerStep, DriverError};
use pyze::imports::{parse_line, parse_python_source, PythonImport};
use pyze::modules::{
    is_std_module, name_less, parse_module_list, remap_modules, sort_dedup, ImportMappings,
};
use pyze::registry::{
    dotted_name, interpret_response, lookup_plan, next_lookup, registry_url,
    FailurePolicy, LookupStep,
};
use pyze::template::{join_modules, render_template, select_template, DEFAULT_TEMPLATE};
use pyze::text::{chars_of, string_from_chars, trim_bounds};

fn strings(v: &[&str]) -> Vec<String> {
    v.iter().map(|s| s.to_string()).collect()
}

fn only(m: &str) -> PythonImport {
    PythonImport::ModuleOnly(m.to_string())
}

fn member(m: &str, x: &str) -> PythonImport {
    PythonImport::ModuleWithMember(m.to_string(), x.to_string())
}

fn line(s: &str) -> Option<PythonImport> {
    parse_line(&s.chars().collect())
}

/// Runs the lookups of one import against a fixed set of confirmed names.
fn resolve(import: &PythonImport, stdlib: &[String], confirmed: &[&str]) -> Option<String> {
    let plan = lookup_plan(import, stdlib);
    let mut answers: Vec<bool> = Vec::new();
    loop {
        match next_lookup(&plan, &answers) {
            LookupStep::Query(name) => answers.push(confirmed.contains(&name.as_str())),
            LookupStep::Found(name) => return Some(name),
            LookupStep::NotFound => return None,
        }
    }
}

#[test]
fn import_line_keeps_whole_name() {
    assert_eq!(line("import numpy.linalg"), Some(only("numpy.linalg")));
    assert_eq!(line("   import   os, sys  "), Some(only("os, sys")));
    assert_eq!(line("import a as b"), Some(only("a as b")));
}

#[test]
fn import_line_needs_a_space() {
    assert_eq!(line("importlib"), None);
    assert_eq!(line("import"), None);
    assert_eq!(line("import    "), None);
}

#[test]
fn from_line_with_one_separator() {
    assert_eq!(line("from sklearn import svm"), Some(member("sklearn", "svm")));
    assert_eq!(line("\tfrom  a.b   import  c, d \r"), Some(member("a.b", "c, d")));
}

#[test]
fn from_line_without_or_with_two_separators() {
    assert_eq!(line("from x"), None);
    assert_eq!(line("from x import y import z"), None);
    assert_eq!(line("from x importy"), None);
}

#[test]
fn other_lines_are_skipped() {
    assert_eq!(line("# import os"), None);
    assert_eq!(line("x = 1"), None);
    assert_eq!(line(""), None);
}

#[test]
fn parse_source_keeps_order_and_duplicates() {
    let src = "import os\nimport requests\nfrom sklearn import svm\n\nimport requests\r\n# import x\nimport last";
    assert_eq!(
        parse_python_source(src),
        vec![only("os"), only("requests"), member("sklearn", "svm"), only("requests"), only("last")]
    );
    assert_eq!(parse_python_source(""), vec![]);
    assert_eq!(parse_python_source("import a\n"), vec![only("a")]);
}

#[test]
fn trim_bounds_strip_unicode_whitespace() {
    let v: Vec<char> = "\u{3000} a b\u{A0}\n".chars().collect();
    let (a, b) = trim_bounds(&v, 0, v.len());
    assert_eq!((a, b), (2, 5));
    let w: Vec<char> = "   ".chars().collect();
    let (c, d) = trim_bounds(&w, 0, w.len());
    assert_eq!(c, d);
}

#[test]
fn chars_round_trip() {
    let v = chars_of("héllo");
    assert_eq!(v.len(), 5);
    assert_eq!(string_from_chars(&v), "héllo");
}

#[test]
fn module_list_from_output_lines() {
    assert_eq!(parse_module_list("abc\nos\r\nsys\n"), strings(&["abc", "os", "sys"]));
    assert_eq!(parse_module_list("a\n\nb"), strings(&["a", "", "b"]));
    assert_eq!(parse_module_list(""), Vec::<String>::new());
    assert_eq!(parse_module_list("x\r"), strings(&["x\r"]));
}

#[test]
fn std_membership_is_exact() {
    let stdlib = strings(&["os", "sys"]);
    assert!(is_std_module(&stdlib, &"os".to_string()));
    assert!(!is_std_module(&stdlib, &"o".to_string()));
    assert!(!is_std_module(&stdlib, &"os.path".to_string()));
    assert!(!is_std_module(&[], &"os".to_string()));
}

#[test]
fn std_module_is_never_looked_up() {
    let stdlib = strings(&["os", "json"]);
    assert!(lookup_plan(&only("os"), &stdlib).is_empty());
    assert!(lookup_plan(&member("json", "loads"), &stdlib).is_empty());
    assert_eq!(resolve(&only("os"), &stdlib, &["os"]), None);
    assert_eq!(resolve(&only("os.path"), &stdlib, &["os"]), None);
}

#[test]
fn sort_dedup_example() {
    assert_eq!(sort_dedup(&strings(&["b", "a", "a"])), strings(&["a", "b"]));
    assert_eq!(sort_dedup(&strings(&["a", "b"])), sort_dedup(&strings(&["b", "a", "b", "a"])));
    assert_eq!(sort_dedup(&[]), Vec::<String>::new());
}

#[test]
fn sort_dedup_matches_string_order() {
    let input = strings(&["b", "B", "ab", "a", "", "é", "z", "ab"]);
    let mut expected = input.clone();
    expected.sort();
    expected.dedup();
    assert_eq!(sort_dedup(&input), expected);
    assert!(name_less(&"a".to_string(), &"ab".to_string()));
    assert!(!name_less(&"ab".to_string(), &"ab".to_string()));
    assert!(name_less(&"Z".to_string(), &"a".to_string()));
}

#[test]
fn remap_example() {
    let mut table = ImportMappings::new();
    table.insert("a".to_string(), "x".to_string());
    let modules = strings(&["a", "b"]);
    assert_eq!(remap_modules(&modules, &Some(table)), strings(&["x", "b"]));
    assert_eq!(remap_modules(&modules, &None), modules);
    assert_eq!(remap_modules(&modules, &Some(ImportMappings::new())), modules);
}

#[test]
fn mapping_insert_replaces() {
    let mut table = ImportMappings::new();
    table.insert("yaml".to_string(), "pyyaml".to_string());
    table.insert("yaml".to_string(), "PyYAML".to_string());
    assert_eq!(table.get(&"yaml".to_string()), Some("PyYAML".to_string()));
    assert_eq!(table.get(&"cv2".to_string()), None);
}

#[test]
fn dotted_names() {
    assert_eq!(dotted_name(&"numpy".to_string(), &"random".to_string()), "numpy.random");
}

#[test]
fn registry_url_format() {
    assert_eq!(registry_url(&"requests".to_string()), "https://pypi.org/pypi/requests/json");
}

#[test]
fn lookup_plan_order() {
    assert_eq!(lookup_plan(&only("a.b"), &[]), strings(&["a.b"]));
    assert_eq!(lookup_plan(&member("numpy", "random"), &[]), strings(&["numpy.random", "numpy"]));
    assert_eq!(lookup_plan(&member("a.b", "c"), &[]), strings(&["a.b.c", "a.b"]));
}

#[test]
fn next_lookup_steps() {
    let plan = strings(&["p", "q"]);
    assert_eq!(next_lookup(&plan, &[]), LookupStep::Query("p".to_string()));
    assert_eq!(next_lookup(&plan, &[false]), LookupStep::Query("q".to_string()));
    assert_eq!(next_lookup(&plan, &[false, true]), LookupStep::Found("q".to_string()));
    assert_eq!(next_lookup(&plan, &[true]), LookupStep::Found("p".to_string()));
    assert_eq!(next_lookup(&plan, &[false, false]), LookupStep::NotFound);
    assert_eq!(next_lookup(&[], &[]), LookupStep::NotFound);
}

#[test]
fn scenario_requests_and_sklearn() {
    let src = "import os\nimport requests\nfrom sklearn import svm";
    let stdlib = strings(&["os"]);
    let confirmed = ["requests", "sklearn.svm"];
    let mut found = Vec::new();
    for import in parse_python_source(src) {
        if let Some(name) = resolve(&import, &stdlib, &confirmed) {
            found.push(name);
        }
    }
    let modules = remap_modules(&sort_dedup(&found), &None);
    assert_eq!(modules, strings(&["requests", "sklearn.svm"]));
}

#[test]
fn scenario_module_fallback() {
    let confirmed = ["requests", "numpy"];
    assert_eq!(resolve(&member("numpy", "random"), &[], &confirmed), Some("numpy".to_string()));
    assert_eq!(resolve(&only("requests"), &[], &confirmed), Some("requests".to_string()));
    assert_eq!(resolve(&only("pandas"), &[], &confirmed), None);
    assert_eq!(resolve(&only("numpy.linalg"), &[], &confirmed), None);
    assert_eq!(resolve(&member("a.b", "c"), &[], &["a", "a.b"]), Some("a.b".to_string()));
}

#[test]
fn scenario_default_template() {
    let t = select_template(None);
    assert_eq!(t, DEFAULT_TEMPLATE);
    let out = render_template(&t, "3.10", &strings(&["requests", "numpy"]), "app.py");
    let expected = "\nFROM python:3.10\n\nRUN useradd -ms /bin/bash dock\nUSER dock\n\nRUN pip install requests numpy\n\nCOPY app.py /home/dock/app.py\nWORKDIR /home/dock\n\nENTRYPOINT [\"python3\", \"app.py\"]\n";
    assert_eq!(out, expected);
}

#[test]
fn user_template_is_used() {
    assert_eq!(select_template(Some("FROM x".to_string())), "FROM x");
}

#[test]
fn template_without_placeholders_unchanged() {
    let t = "FROM scratch\n{{OTHER}} {{ MODULES }}\n";
    assert_eq!(render_template(t, "3.10", &strings(&["a"]), "s.py"), t);
}

#[test]
fn template_each_placeholder_replaced() {
    let t = "{{PYTHON_VERSION}}|{{MODULES}}|{{SCRIPT_NAME}}|{{MODULES}}";
    assert_eq!(render_template(t, "3.11", &strings(&["a", "b"]), "x.py"), "3.11|a b|x.py|a b");
    assert_eq!(render_template("[{{MODULES}}]", "3", &[], "s"), "[]");
    assert_eq!(render_template("{{{MODULES}}}", "3", &strings(&["m"]), "s"), "{m}");
}

#[test]
fn join_modules_spacing() {
    assert_eq!(join_modules(&[]), "");
    assert_eq!(join_modules(&strings(&["a"])), "a");
    assert_eq!(join_modules(&strings(&["a", "b", "c"])), "a b c");
}

#[test]
fn scenario_build_failure_stops_before_run() {
    assert_eq!(check_exit(ContainerStep::Build, false), Err(DriverError::BuildFailed));
    assert_eq!(check_exit(ContainerStep::Run, false), Err(DriverError::RunFailed));
    assert_eq!(check_exit(ContainerStep::Build, true), Ok(()));
    assert_eq!(DriverError::BuildFailed.message(), "Failed to build Docker image");
}

#[test]
fn container_arguments() {
    assert_eq!(
        build_args(&"app.py".to_string(), &"/tmp/x".to_string()),
        strings(&["build", "-t", "app.py", "/tmp/x"])
    );
    assert_eq!(
        run_args(&"app.py".to_string(), &strings(&["--n", "3"])),
        strings(&["run", "app.py", "--n", "3"])
    );
    assert_eq!(run_args(&"a".to_string(), &[]), strings(&["run", "a"]));
}

#[test]
fn failed_requests_follow_the_policy() {
    assert_eq!(interpret_response(Some(true), FailurePolicy::Abort), Some(true));
    assert_eq!(interpret_response(Some(false), FailurePolicy::TreatAsPresent), Some(false));
    assert_eq!(interpret_response(None, FailurePolicy::TreatAsAbsent), Some(false));
    assert_eq!(interpret_response(None, FailurePolicy::TreatAsPresent), Some(true));
    assert_eq!(interpret_response(None, FailurePolicy::Abort), None);
}

#[test]
fn default_template_fully_filled() {
    let out = render_template(DEFAULT_TEMPLATE, "3.12", &strings(&["a", "b"]), "run.py");
    assert!(!out.contains('{') && !out.contains('}'));
    assert_eq!(out.matches("run.py").count(), 3);
}
