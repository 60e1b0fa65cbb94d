use dawn_checker::cpu::{shorten_cpu_name, shorten_cpu_name_with, split_words};

#[test]
fn threadripper() {
    assert_eq!(shorten_cpu_name("AMD Ryzen Threadripper 3990X 64-Core Processor"), "Threadripper 3990X 64-Core Processor");
}

#[test]
fn epyc() {
    assert_eq!(shorten_cpu_name("AMD EPYC 7763 64-Core Processor"), "EPYC 7763 64-");
}

#[test]
fn core_series() {
    assert_eq!(shorten_cpu_name("Intel(R) Core(TM) i7-10700K CPU @ 3.80GHz"), "I7-10700");
}

#[test]
fn core_series_in_lower_case() {
    assert_eq!(shorten_cpu_name("intel core i5-8250u"), "I5-8250");
}

#[test]
fn core_ultra() {
    assert_eq!(shorten_cpu_name("Intel(R) Core(TM) Ultra 7 155H"), "Ultra 7 155H");
}

#[test]
fn xeon() {
    assert_eq!(shorten_cpu_name("Intel(R) Xeon(R) Gold 6230 CPU @ 2.10GHz"), "Xeon Gold 6230 CPU @ 2");
}

#[test]
fn ryzen() {
    assert_eq!(shorten_cpu_name("AMD Ryzen 9 5900X 12-Core Processor"), "AMD Ryzen 9 5900");
}

#[test]
fn fallbacks() {
    assert_eq!(shorten_cpu_name("ARM Cortex-A72 r0p3"), "ARM Cortex-A72");
    assert_eq!(shorten_cpu_name("Apple M1 Pro Max"), "Apple M1 Pro");
    assert_eq!(shorten_cpu_name("X1-9"), "X1-9");
    assert_eq!(shorten_cpu_name(""), "");
}

#[test]
fn with_given_upper_case() {
    assert_eq!(shorten_cpu_name_with("intel core i5-8250u", "INTEL CORE I5-8250U"), "I5-8250");
    assert_eq!(shorten_cpu_name_with("intel core i5-8250u", "intel core i5-8250u"), "core i5-8250u");
}

#[test]
fn words_split_on_any_whitespace() {
    assert_eq!(split_words("  a\tbb \n c "), vec!["a", "bb", "c"]);
    assert!(split_words("   ").is_empty());
}
