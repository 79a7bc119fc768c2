use gpio_codegen::afn::{get_pin_af_numbers, get_pin_reset_mode};
use gpio_codegen::feature::ip_version_to_feature;
use gpio_codegen::merge::{merge_by_body, merge_by_features};
use gpio_codegen::pipeline::{af_names_ok, gen_gpio_ip, gen_mappings};
use gpio_codegen::ports::{merge_pins_by_port, Port};
use gpio_codegen::render::{gen_pin, gen_port};
use gpio_codegen::types::{Error, Ip, Pin, PortMacro, Signal};

fn signal(af: u8, name: &str) -> Signal {
    Signal { af: Some((af, String::from(name))) }
}

fn dead_signal() -> Signal {
    Signal { af: None }
}

fn pin(name: &str, port: char, number: u32, signals: Vec<Signal>) -> Pin {
    Pin { name: String::from(name), port: Some(port), number: Some(number), pin_signals: signals }
}

#[test]
fn feature_resolver_accepts_the_pattern() {
    let f = ip_version_to_feature("STM32F4_gpio_v1_0").unwrap();
    assert_eq!(f, "gpio-f4");
}

#[test]
fn feature_resolver_is_deterministic() {
    let a = ip_version_to_feature("STM32L4P_gpio_v1_0").unwrap();
    let b = ip_version_to_feature("STM32L4P_gpio_v1_0").unwrap();
    assert_eq!(a, b);
    assert_eq!(a, "gpio-l4p");
}

#[test]
fn feature_resolver_lowercases_the_tag() {
    let f = ip_version_to_feature("STM32H7RS_gpio_v1_0").unwrap();
    assert_eq!(f, "gpio-h7rs");
}

#[test]
fn feature_resolver_rejects_wrong_suffix() {
    match ip_version_to_feature("STM32F4_gpio_v2_0") {
        Err(Error::InvalidVersion(s)) => assert_eq!(s, "STM32F4_gpio_v2_0"),
        _ => panic!("expected an invalid-version error"),
    }
}

#[test]
fn feature_resolver_rejects_wrong_case_prefix() {
    assert!(ip_version_to_feature("stm32F4_gpio_v1_0").is_err());
}

#[test]
fn feature_resolver_rejects_empty_tag() {
    assert!(ip_version_to_feature("STM32_gpio_v1_0").is_err());
}

#[test]
fn feature_resolver_rejects_untrimmed_input() {
    assert!(ip_version_to_feature(" STM32F4_gpio_v1_0").is_err());
    assert!(ip_version_to_feature("STM32F4_gpio_v1_0 ").is_err());
}

#[test]
fn aggregator_excludes_the_three_names() {
    let pins = vec![
        pin("PDR_ON", 'C', 13, vec![signal(1, "TIM1_CH1")]),
        pin("PC14OSC32_IN", 'C', 14, vec![]),
        pin("PC15OSC32_OUT", 'C', 15, vec![]),
        pin("PC0", 'C', 0, vec![]),
    ];
    let ports = merge_pins_by_port(&pins).unwrap();
    assert_eq!(ports.len(), 1);
    assert_eq!(ports[0].id, 'C');
    assert_eq!(ports[0].pins.len(), 1);
    assert_eq!(ports[0].pins[0].name, "PC0");
}

#[test]
fn aggregator_sorts_and_dedups_by_number() {
    let pins = vec![
        pin("PA7", 'A', 7, vec![]),
        pin("PA1", 'A', 1, vec![]),
        pin("PA7BIS", 'A', 7, vec![signal(4, "SPI1_MOSI")]),
        pin("PA0", 'A', 0, vec![]),
    ];
    let ports = merge_pins_by_port(&pins).unwrap();
    assert_eq!(ports.len(), 1);
    let numbers: Vec<u32> = ports[0].pins.iter().map(|p| p.number.unwrap()).collect();
    assert_eq!(numbers, vec![0, 1, 7]);
    // the first pin with number 7 wins
    assert_eq!(ports[0].pins[2].name, "PA7");
}

#[test]
fn aggregator_orders_ports_by_letter() {
    let pins = vec![
        pin("PB0", 'B', 0, vec![]),
        pin("PA0", 'A', 0, vec![]),
        pin("PC0", 'C', 0, vec![]),
    ];
    let ports = merge_pins_by_port(&pins).unwrap();
    let ids: Vec<char> = ports.iter().map(|p| p.id).collect();
    assert_eq!(ids, vec!['A', 'B', 'C']);
}

#[test]
fn aggregator_reports_underivable_port() {
    let pins = vec![
        pin("PA0", 'A', 0, vec![]),
        Pin { name: String::from("ODD"), port: None, number: None, pin_signals: vec![] },
    ];
    match merge_pins_by_port(&pins) {
        Err(Error::UnknownPort(n)) => assert_eq!(n, "ODD"),
        _ => panic!("expected an unknown-port error"),
    }
}

#[test]
fn aggregator_reports_underivable_number() {
    let pins = vec![Pin {
        name: String::from("PAX"),
        port: Some('A'),
        number: None,
        pin_signals: vec![],
    }];
    match merge_pins_by_port(&pins) {
        Err(Error::UnknownNumber(n)) => assert_eq!(n, "PAX"),
        _ => panic!("expected an unknown-number error"),
    }
}

#[test]
fn af_numbers_sorted_and_unique() {
    let p = pin(
        "PA0",
        'A',
        0,
        vec![
            signal(7, "USART2_TX"),
            dead_signal(),
            signal(2, "TIM5_CH1"),
            signal(7, "USART2_TX"),
            signal(7, "TIM8_ETR"),
            signal(1, "TIM2_CH1"),
        ],
    );
    let numbers = get_pin_af_numbers(&p).unwrap();
    let flat: Vec<(u8, String)> = numbers;
    assert_eq!(
        flat,
        vec![
            (1u8, String::from("TIM2_CH1")),
            (2u8, String::from("TIM5_CH1")),
            (7u8, String::from("TIM8_ETR")),
            (7u8, String::from("USART2_TX")),
        ]
    );
}

#[test]
fn af_numbers_ignore_order_of_input() {
    let a = pin("PA0", 'A', 0, vec![signal(3, "X_A"), signal(1, "Y_B")]);
    let b = pin("PA0", 'A', 0, vec![signal(1, "Y_B"), signal(3, "X_A")]);
    assert_eq!(get_pin_af_numbers(&a).unwrap(), get_pin_af_numbers(&b).unwrap());
}

#[test]
fn reset_mode_marks_debug_pins() {
    for (port, number) in [('A', 13u32), ('A', 14), ('A', 15), ('B', 3), ('B', 4)] {
        let p = pin("PX", port, number, vec![]);
        assert_eq!(get_pin_reset_mode(&p).unwrap(), Some("super::Debugger"));
    }
    let p = pin("PA0", 'A', 0, vec![]);
    assert_eq!(get_pin_reset_mode(&p).unwrap(), None);
}

#[test]
fn gen_pin_renders_one_line_per_pair() {
    let p = pin("PA0", 'A', 0, vec![signal(2, "USART1_TX"), dead_signal()]);
    let (lines, reset) = gen_pin('A', 'a', &p).unwrap();
    assert_eq!(lines, vec![String::from("    TX<USART1>, PA0, 2;")]);
    assert_eq!(reset, None);
}

#[test]
fn gen_pin_reports_missing_number() {
    let p = Pin { name: String::from("PAX"), port: Some('A'), number: None, pin_signals: vec![] };
    match gen_pin('A', 'a', &p) {
        Err(Error::UnknownNumber(n)) => assert_eq!(n, "PAX"),
        _ => panic!("expected an unknown-number error"),
    }
}

#[test]
fn gen_port_concatenates_pin_lines() {
    let p0 = pin("PA0", 'A', 0, vec![signal(2, "USART1_TX")]);
    let p1 = pin("PA1", 'A', 1, vec![signal(2, "USART1_RX")]);
    let port = Port { id: 'A', pins: vec![&p0, &p1] };
    let lines = gen_port(&port).unwrap();
    assert_eq!(
        lines,
        vec![
            String::from("    TX<USART1>, PA0, 2;"),
            String::from("    RX<USART1>, PA1, 2;"),
        ]
    );
}

#[test]
fn render_single_feature() {
    let m = PortMacro {
        features: vec![String::from("gpio-f4")],
        string: String::from("    TX<USART1>, PA0, 2;"),
    };
    assert_eq!(
        m.render(),
        "#[cfg(feature = \"gpio-f4\")]\nchannel_impl! {\n    TX<USART1>, PA0, 2;\n}\n"
    );
}

#[test]
fn render_many_features() {
    let m = PortMacro {
        features: vec![String::from("gpio-f4"), String::from("gpio-f7")],
        string: String::from("    TX<USART1>, PA0, 2;"),
    };
    assert_eq!(
        m.render(),
        "#[cfg(any(\n    feature = \"gpio-f4\",\n    feature = \"gpio-f7\"\n))]\nchannel_impl! {\n    TX<USART1>, PA0, 2;\n}\n"
    );
}

#[test]
fn merge_by_body_unions_features() {
    let ms = vec![
        PortMacro { features: vec![String::from("gpio-f4")], string: String::from("A") },
        PortMacro { features: vec![String::from("gpio-f7")], string: String::from("A") },
        PortMacro { features: vec![String::from("gpio-l0")], string: String::from("B") },
    ];
    let merged = merge_by_body(ms);
    assert_eq!(merged.len(), 2);
    assert_eq!(merged[0].features, vec![String::from("gpio-f4"), String::from("gpio-f7")]);
    assert_eq!(merged[0].string, "A");
    assert_eq!(merged[1].features, vec![String::from("gpio-l0")]);
}

#[test]
fn merge_by_body_twice_changes_nothing() {
    let build = || {
        vec![
            PortMacro { features: vec![String::from("gpio-f4")], string: String::from("A") },
            PortMacro { features: vec![String::from("gpio-f7")], string: String::from("A") },
            PortMacro { features: vec![String::from("gpio-l0")], string: String::from("B") },
        ]
    };
    let once = merge_by_body(build());
    let twice = merge_by_body(merge_by_body(build()));
    assert_eq!(once.len(), twice.len());
    for (a, b) in once.iter().zip(twice.iter()) {
        assert_eq!(a.features, b.features);
        assert_eq!(a.string, b.string);
    }
}

#[test]
fn merge_by_features_concatenates_bodies() {
    let ms = vec![
        PortMacro { features: vec![String::from("gpio-f4")], string: String::from("A") },
        PortMacro { features: vec![String::from("gpio-f4")], string: String::from("B") },
    ];
    let merged = merge_by_features(ms);
    assert_eq!(merged.len(), 1);
    assert_eq!(merged[0].features, vec![String::from("gpio-f4")]);
    assert_eq!(merged[0].string, "A\nB");
}

#[test]
fn merge_by_features_is_order_sensitive() {
    let ms = vec![
        PortMacro {
            features: vec![String::from("gpio-f4"), String::from("gpio-f7")],
            string: String::from("A"),
        },
        PortMacro {
            features: vec![String::from("gpio-f7"), String::from("gpio-f4")],
            string: String::from("B"),
        },
    ];
    let merged = merge_by_features(ms);
    assert_eq!(merged.len(), 2);
}

#[test]
fn gen_gpio_ip_builds_tagged_records() {
    let ip = Ip {
        version: String::from("STM32F4_gpio_v1_0"),
        pins: vec![pin("PA0", 'A', 0, vec![signal(2, "USART1_TX")])],
    };
    let macros = gen_gpio_ip(&ip).unwrap();
    assert_eq!(macros.len(), 1);
    assert_eq!(macros[0].features, vec![String::from("gpio-f4")]);
    assert_eq!(macros[0].string, "    TX<USART1>, PA0, 2;");
}

#[test]
fn gen_gpio_ip_skips_empty_ports() {
    let ip = Ip {
        version: String::from("STM32F4_gpio_v1_0"),
        pins: vec![pin("PA0", 'A', 0, vec![dead_signal()])],
    };
    let macros = gen_gpio_ip(&ip).unwrap();
    assert!(macros.is_empty());
}

#[test]
fn end_to_end_dedups_by_pin_number_only() {
    let ip = Ip {
        version: String::from("STM32F4_gpio_v1_0"),
        pins: vec![
            pin("PA0", 'A', 0, vec![signal(2, "USART1_TX")]),
            pin("PA1", 'A', 1, vec![signal(2, "USART1_TX")]),
            pin("PA1X", 'A', 1, vec![signal(5, "SPI1_SCK")]),
        ],
    };
    let ips = vec![ip];
    let text = gen_mappings(&ips).unwrap();
    assert_eq!(
        text,
        "\n#[cfg(feature = \"gpio-f4\")]\nchannel_impl! {\n    TX<USART1>, PA0, 2;\n    TX<USART1>, PA1, 2;\n}\n\n"
    );
}

#[test]
fn end_to_end_merges_across_blocks() {
    let make_pins = || vec![pin("PA0", 'A', 0, vec![signal(2, "USART1_TX")])];
    let ips = vec![
        Ip { version: String::from("STM32F4_gpio_v1_0"), pins: make_pins() },
        Ip { version: String::from("STM32F7_gpio_v1_0"), pins: make_pins() },
    ];
    let text = gen_mappings(&ips).unwrap();
    assert_eq!(
        text,
        "\n\n#[cfg(any(\n    feature = \"gpio-f4\",\n    feature = \"gpio-f7\"\n))]\nchannel_impl! {\n    TX<USART1>, PA0, 2;\n}\n\n"
    );
}

#[test]
fn excluded_pin_contributes_no_line() {
    let ip = Ip {
        version: String::from("STM32F4_gpio_v1_0"),
        pins: vec![pin("PDR_ON", 'C', 13, vec![signal(1, "TIM1_CH1")])],
    };
    let ips = vec![ip];
    let text = gen_mappings(&ips).unwrap();
    assert_eq!(text, "\n");
}

#[test]
fn invalid_version_aborts_the_run() {
    let ips = vec![Ip { version: String::from("STM32F4_gpio_v1_1"), pins: vec![] }];
    match gen_mappings(&ips) {
        Err(Error::InvalidVersion(s)) => assert_eq!(s, "STM32F4_gpio_v1_1"),
        _ => panic!("expected an invalid-version error"),
    }
}

#[test]
fn af_names_checker_accepts_and_rejects() {
    let good = vec![Ip {
        version: String::from("STM32F4_gpio_v1_0"),
        pins: vec![pin("PA0", 'A', 0, vec![signal(2, "USART1_TX"), dead_signal()])],
    }];
    assert!(af_names_ok(&good));
    let bad = vec![Ip {
        version: String::from("STM32F4_gpio_v1_0"),
        pins: vec![pin("PA0", 'A', 0, vec![signal(2, "NOSEPARATOR")])],
    }];
    assert!(!af_names_ok(&bad));
}

#[test]
fn empty_input_yields_empty_output() {
    let ips: Vec<Ip> = vec![];
    assert_eq!(gen_mappings(&ips).unwrap(), "");
}

#[test]
fn unresolved_signal_reports_no_alternate_function() {
    let s = dead_signal();
    match s.af() {
        Err(Error::NoAlternateFunction) => {}
        _ => panic!("expected the no-alternate-function error"),
    }
    let r = signal(2, "USART1_TX");
    assert_eq!(r.af().unwrap(), (2u8, String::from("USART1_TX")));
}
