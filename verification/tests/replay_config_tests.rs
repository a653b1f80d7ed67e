use nf_feed::engine::replay_config::{config_text_fails, load_config_file};
use nf_feed::testkit::sched::{DelayModel, LossModel, Packetize};

#[test]
fn config_defaults_for_an_empty_file() {
    let (cfg, path, session) = load_config_file(b"");
    assert_eq!(cfg.seed_a, 0x1234_5678_9ABC_DEF0);
    assert_eq!(cfg.seed_b, 0x0FED_CBA9_8765_4321);
    assert_eq!(cfg.msgs_per_packet, Packetize::Fixed(10));
    assert_eq!(cfg.loss, [LossModel::NoLoss, LossModel::NoLoss]);
    assert_eq!(cfg.delay, [DelayModel::NoDelay, DelayModel::NoDelay]);
    assert!(cfg.guarantee_coverage);
    assert_eq!(cfg.session_change_at_msg, None);
    assert_eq!(path, b"data/tests/sample-mini.itch".to_vec());
    assert_eq!(&session, b"CHAOSSESS1");
}

#[test]
fn config_reads_every_setting() {
    let text = "# chaos run\n\
        sample_path = \"data/other.itch\"\n\
        seed_a = 42\n\
        seed_b = +7\n\
        loss_a_pm = 80\n\
        loss_b_pm = 0\n\
        delay_mean_ns = -25000\n\
        delay_sigma_ns = 5000\n\
        guarantee_coverage = false\n\
        mtu_bound = 1400\n\
        session = 'SESS'\n\
        split_m = 1000\r\n\
        unknown_key = 5\n\
        line without equals\n";
    assert!(!config_text_fails(text.as_bytes()));
    let (cfg, path, session) = load_config_file(text.as_bytes());
    assert_eq!(path, b"data/other.itch".to_vec());
    assert_eq!(cfg.seed_a, 42);
    assert_eq!(cfg.seed_b, 7);
    assert_eq!(cfg.loss, [LossModel::Bernoulli { p_pm: 80 }, LossModel::NoLoss]);
    let g = DelayModel::GaussianApprox { mean_ns: -25000, sigma_ns: 5000 };
    assert_eq!(cfg.delay, [g, g]);
    assert!(!cfg.guarantee_coverage);
    assert_eq!(cfg.msgs_per_packet, Packetize::MtuBound(1400));
    assert_eq!(&session, b"SESS      ");
    assert_eq!(cfg.session_change_at_msg, Some(1000));
}

#[test]
fn config_values_that_do_not_parse_fall_back() {
    let text = "seed_a = 0x10\nloss_a_pm = 99999999999\ndelay_mean_ns = abc\nmsgs_per_packet = 20\n\
                guarantee_coverage = yes\nsession_change_at_msg = -1\nsession = VERYLONGSESSIONID";
    let (cfg, _, session) = load_config_file(text.as_bytes());
    assert_eq!(cfg.seed_a, 0x1234_5678_9ABC_DEF0);
    assert_eq!(cfg.loss[0], LossModel::NoLoss);
    assert_eq!(cfg.delay[0], DelayModel::NoDelay);
    assert_eq!(cfg.msgs_per_packet, Packetize::Fixed(20));
    assert!(cfg.guarantee_coverage);
    assert_eq!(cfg.session_change_at_msg, None);
    assert_eq!(&session, b"VERYLONGSE");
}

#[test]
fn config_trims_unicode_whitespace_and_takes_the_last_setting() {
    let text = "\u{3000}seed_a\u{00A0}=\t 5 \u{2003}\nseed_a = 6\nmsgs_per_packet = x\n";
    let (cfg, _, _) = load_config_file(text.as_bytes());
    assert_eq!(cfg.seed_a, 6);
    assert_eq!(cfg.msgs_per_packet, Packetize::MtuBound(1400));
    let (cfg, _, _) = load_config_file("seed_a = \u{2003}5\u{00A0}".as_bytes());
    assert_eq!(cfg.seed_a, 5);
}

#[test]
fn config_lone_quote_value_fails() {
    assert!(config_text_fails(b"seed_a = 1\nsession = \"\n"));
    assert!(config_text_fails(b"x = '"));
    assert!(!config_text_fails(b"session = \"\"\"\n# '\nkey '\n"));
}
