use isotopes::decay::Decay;

#[test]
fn codes_read_into_families() {
    assert_eq!(Decay::parse(""), Decay::Unknown);
    assert_eq!(Decay::parse("IT"), Decay::Other);
    assert_eq!(Decay::parse("SF"), Decay::Fission);
    assert_eq!(Decay::parse("B-"), Decay::BetaMinus);
    assert_eq!(Decay::parse("2B-"), Decay::BetaMinus);
    assert_eq!(Decay::parse("B-N"), Decay::BetaMinus);
    assert_eq!(Decay::parse("EC+B+"), Decay::BetaPlus);
    assert_eq!(Decay::parse("B+"), Decay::BetaPlus);
    assert_eq!(Decay::parse("2EC"), Decay::BetaPlus);
    assert_eq!(Decay::parse("A"), Decay::Alpha);
    assert_eq!(Decay::parse("P"), Decay::Proton);
    assert_eq!(Decay::parse("2P"), Decay::Proton);
    assert_eq!(Decay::parse("N"), Decay::Neutron);
    assert_eq!(Decay::parse("2N"), Decay::Neutron);
    assert_eq!(Decay::parse("14C"), Decay::Other);
    assert_eq!(Decay::parse("SF+A"), Decay::Other);
}


#[test]
fn families_have_their_names() {
    assert_eq!(Decay::Stable.label(), "stable");
    assert_eq!(Decay::BetaMinus.label(), "β−");
    assert_eq!(Decay::BetaPlus.label(), "β+ / EC");
    assert_eq!(Decay::Alpha.label(), "α");
    assert_eq!(Decay::Fission.label(), "spontaneous fission");
    assert_eq!(Decay::Proton.label(), "proton emission");
    assert_eq!(Decay::Neutron.label(), "neutron emission");
    assert_eq!(Decay::Other.label(), "other");
    assert_eq!(Decay::Unknown.label(), "unknown");
}

#[test]
fn families_have_their_arrows() {
    assert_eq!(Decay::Stable.short(), "");
    assert_eq!(Decay::BetaMinus.short(), "β−");
    assert_eq!(Decay::BetaPlus.short(), "β+");
    assert_eq!(Decay::Alpha.short(), "α");
    assert_eq!(Decay::Fission.short(), "SF");
    assert_eq!(Decay::Proton.short(), "p");
    assert_eq!(Decay::Neutron.short(), "n");
    assert_eq!(Decay::Other.short(), "IT");
    assert_eq!(Decay::Unknown.short(), "?");
}

#[test]
fn families_have_their_colours() {
    assert_eq!(Decay::Stable.rgb(), (245, 245, 245));
    assert_eq!(Decay::BetaMinus.rgb(), (90, 150, 255));
    assert_eq!(Decay::BetaPlus.rgb(), (255, 105, 90));
    assert_eq!(Decay::Alpha.rgb(), (255, 205, 70));
    assert_eq!(Decay::Fission.rgb(), (200, 120, 255));
    assert_eq!(Decay::Proton.rgb(), (255, 150, 220));
    assert_eq!(Decay::Neutron.rgb(), (110, 225, 210));
    assert_eq!(Decay::Other.rgb(), (170, 170, 175));
    assert_eq!(Decay::Unknown.rgb(), (95, 95, 105));
}

#[test]
fn daughters_sit_where_the_mode_puts_them() {
    assert_eq!(Decay::BetaMinus.step(), Some((1, -1)));
    assert_eq!(Decay::BetaPlus.step(), Some((-1, 1)));
    assert_eq!(Decay::Alpha.step(), Some((-2, -2)));
    assert_eq!(Decay::Proton.step(), Some((-1, 0)));
    assert_eq!(Decay::Neutron.step(), Some((0, -1)));
    assert_eq!(Decay::Stable.step(), None);
    assert_eq!(Decay::Fission.step(), None);
    assert_eq!(Decay::Other.step(), None);
    assert_eq!(Decay::Unknown.step(), None);
}

#[test]
fn no_code_reads_as_stable_and_only_empty_reads_unknown() {
    for code in ["", "STABLE", "S", "stable", "IT", "X", "?", "B-", "a"] {
        let d = Decay::parse(code);
        assert_ne!(d, Decay::Stable);
        assert_eq!(d == Decay::Unknown, code.is_empty());
    }
}
