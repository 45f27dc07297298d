use isotopes::decay::Decay;
use isotopes::nuclide::{Nuclide, Real};
use isotopes::record::read_line;
use isotopes::table::Table;

/// A few dozen rows of the evaluated table: the uranium and thorium series,
/// potassium-40 and its daughters, the iron peak, technetium.
const ROWS: &str = "\
# z,n,symbol,jp,abundance,half_life_s,half_life_text,decays,binding,mass_excess,discovery
1,0,H,1/2+,99.9855,STABLE,STABLE,,0,7288.971,1920
6,8,C,0+,,1.79878E11,5700 Y,B-:100,7520.3198,3019.893,1940
18,22,Ar,0+,99.6035,STABLE,STABLE,,8595.2594,-35039.894,1910
19,21,K,4-,0.0117,3.9383E16,1.248E9 Y,B-:89.28 EC:10.72,8538.0907,-33535.49,1935
20,20,Ca,0+,96.941,STABLE,STABLE,,8551.3046,-34846.386,1922
26,28,Fe,0+,5.845,STABLE,STABLE,,8736.3846,-56252.5,1922
26,29,Fe,3/2-,,8.6592E7,2.744 Y,EC:100,8746.5955,-57479.4,1939
26,30,Fe,0+,91.754,STABLE,STABLE,,8790.3557,-60607.1,1922
26,31,Fe,1/2-,2.119,STABLE,STABLE,,8770.2817,-60180.1,1922
26,32,Fe,0+,0.282,STABLE,STABLE,,8792.2527,-62153.4,1922
26,34,Fe,0+,,8.2E13,2.6E6 Y,B-:100,8755.85,-61412,1957
28,34,Ni,0+,3.6346,STABLE,STABLE,,8794.5536,-66746.3,1934
43,54,Tc,9/2+,,1.329E14,4.21E6 Y,EC:100,8623.68,-87221,1946
43,55,Tc,(6)+,,1.3255E14,4.2E6 Y,B-:100,8610.0,-86428,1955
43,56,Tc,9/2+,,6.662E12,2.111E5 Y,B-:100,8613.61,-87327.9,1938
81,127,Tl,5+,,183.18,3.053 M,B-:100,7847.2,-16749.5,1908
82,124,Pb,0+,24.1,STABLE,STABLE,,7875.3622,-23785.4,1927
82,126,Pb,0+,52.4,STABLE,STABLE,,7867.4531,-21748.5,1927
82,128,Pb,0+,,7.0056E8,22.2 Y,B-:100 A:1.9E-6,7835.9645,-14728.3,1900
82,130,Pb,0+,,38304,10.64 H,B-:100,7804.3202,-7547.2,1905
82,132,Pb,0+,,1608,26.8 M,B-:100,7772.3857,-183.5,1904
83,127,Bi,1-,,433036.8,5.012 D,B-:100 A:1.32E-4,7832.5427,-14791.8,1905
83,129,Bi,1(-),,3633,60.55 M,B-:64.06 A:35.94,7803.3116,-8117.2,1904
83,131,Bi,1-,,1194,19.9 M,B-:99.979 A:0.021,7773.0074,1200,1904
84,126,Po,0+,,1.19557E7,138.376 D,A:100,7833.8004,-15952.9,1898
84,128,Po,0+,,2.947E-7,294.7 NS,A:100,7810.2437,-10369.4,1906
84,130,Po,0+,,1.6437E-4,164.37 US,A:100,7785.1164,-4469.9,1904
84,132,Po,0+,,0.145,0.145 S,A:100,7765.2235,1782.5,1911
84,134,Po,0+,,185.88,3.098 M,A:99.98 B-:0.02,7736.9876,8358.2,1904
86,134,Rn,0+,,55.6,55.6 S,A:100,7717.2474,10613.4,1899
86,136,Rn,0+,,330350.4,3.8235 D,A:100,7694.4991,16372.6,1899
88,136,Ra,0+,,316224,3.66 D,A:100,7679.9229,23667.9,1902
88,138,Ra,0+,,5.049E10,1600 Y,A:100,7661.9648,23669.1,1898
88,140,Ra,0+,,1.8145E8,5.75 Y,B-:100,7642.4289,28942.2,1907
89,139,Ac,3+,,22140,6.15 H,B-:100,7621.1522,28896,1908
90,138,Th,0+,,6.0364E7,1.9126 Y,A:100,7645.0869,26772.1,1905
90,140,Th,0+,,2.379E12,7.54E4 Y,A:100,7630.9974,30864.4,1907
90,142,Th,0+,100,4.41E17,1.40E10 Y,A:100 SF:1.1E-9,7615.0338,35448.3,1828
90,144,Th,0+,,2082240,24.1 D,B-:100,7596.8534,40613.6,1900
91,143,Pa,4+,,24120,6.70 H,B-:100,7594.6839,42334,1913
92,142,U,0+,0.0054,7.75E12,2.455E5 Y,A:100 SF:1.64E-9,7600.7152,38146.6,1935
92,143,U,7/2-,0.7204,2.22E16,7.04E8 Y,A:100 SF:7E-9,7590.9151,40920.5,1935
92,146,U,0+,99.2742,1.41E17,4.468E9 Y,A:100 SF:5.45E-5,7570.1262,47308.9,1896
";

fn as_real(s: &str) -> Option<Real> {
    s.parse::<f64>().ok().map(|v| Real { bits: v.to_bits() })
}

fn nuclide(line: &str) -> Option<Nuclide> {
    let r = read_line(line)?;
    Some(Nuclide {
        z: r.z,
        n: r.n,
        symbol: r.symbol,
        jp: r.jp,
        abundance: as_real(&r.abundance),
        half_life_s: as_real(&r.half_life),
        stable: r.stable,
        half_life_text: r.half_life_text,
        decays: r.decays.into_iter().map(|(d, c, p)| (d, c, as_real(&p))).collect(),
        binding: as_real(&r.binding),
        mass_excess: as_real(&r.mass_excess),
        discovery: r.discovery,
    })
}

fn table() -> Table {
    Table::new(ROWS.lines().filter_map(nuclide).collect())
}

fn value(r: Option<Real>) -> f64 {
    f64::from_bits(r.unwrap().bits)
}

#[test]
fn uranium_238_is_right() {
    let t = table();
    let u = t.get(92, 146).unwrap();
    assert_eq!(u.name(), "U-238");
    assert_eq!(u.a(), 238);
    assert_eq!(u.main_decay(), Decay::Alpha);
    assert!((value(u.abundance) - 99.2742).abs() < 0.001);
    // 4.468 billion years, in seconds.
    assert!((value(u.half_life_s) - 1.41e17).abs() / 1.41e17 < 0.01);
    assert_eq!(u.discovery, Some(1896));
}

/// Iron-56 is the famous peak of the binding-energy curve.
#[test]
fn iron_is_the_most_bound() {
    let t = table();
    let best = t
        .all
        .iter()
        .filter(|n| n.binding.is_some() && n.is_stable())
        .max_by(|a, b| value(a.binding).total_cmp(&value(b.binding)))
        .unwrap();
    assert!(matches!(best.symbol.as_str(), "Fe" | "Ni"), "peak at {}", best.name());
    assert!((value(best.binding) - 8790.0).abs() < 50.0);
}

/// The uranium series: U-238 alpha-decays its way to lead-206.
#[test]
fn uranium_series_ends_at_lead() {
    let t = table();
    let start = t.index(92, 146).unwrap();
    let chain = t.chain(start);
    let last = &t.all[chain.last().unwrap().0];
    assert_eq!(last.name(), "Pb-206", "chain ended at {}", last.name());
    assert!(chain.len() >= 14, "only {} steps", chain.len());
    // Radon-222 is in there, which is why basements get tested.
    assert!(chain.iter().any(|&(i, _)| t.all[i].name() == "Rn-222"));
}

/// Thorium-232 ends at lead-208, potassium-40 goes both ways but
/// mostly beta-minus to calcium-40.
#[test]
fn other_chains_land_where_they_should() {
    let t = table();
    let th = t.chain(t.index(90, 142).unwrap());
    assert_eq!(t.all[th.last().unwrap().0].name(), "Pb-208");
    let k40 = t.get(19, 21).unwrap();
    assert_eq!(k40.main_decay(), Decay::BetaMinus);
}

#[test]
fn search_takes_what_a_person_types() {
    let t = table();
    for q in ["U238", "u-238", "U 238"] {
        assert_eq!(t.all[t.find(q).unwrap()].name(), "U-238", "query {q}");
    }
    assert!(t.find("Fe56").is_some());
    assert!(t.find("zz9").is_none());
    // A bare symbol lands on the isotope you would actually meet.
    assert_eq!(t.all[t.find("Fe").unwrap()].name(), "Fe-56");
    assert_eq!(t.all[t.find("u").unwrap()].name(), "U-238");
    // Nothing stable, so the longest-lived one wins.
    assert_eq!(t.all[t.find("Tc").unwrap()].name(), "Tc-97");
}

#[test]
fn search_reads_the_number_first_too() {
    let t = table();
    assert_eq!(t.all[t.find("238U").unwrap()].name(), "U-238");
    assert_eq!(t.all[t.find("  fe_56 ").unwrap()].name(), "Fe-56");
    assert_eq!(t.all[t.find("Th232").unwrap()].name(), "Th-232");
}

#[test]
fn search_refuses_what_is_not_a_name() {
    let t = table();
    assert!(t.find("").is_none());
    assert!(t.find("   ").is_none());
    assert!(t.find("238").is_none());
    assert!(t.find("-_ -").is_none());
    // A mass number too large for the table's numbers finds nothing.
    assert!(t.find("U99999999999").is_none());
}

#[test]
fn search_falls_back_to_the_element() {
    let t = table();
    // No iron-99: the iron worth opening on instead.
    assert_eq!(t.all[t.find("Fe99").unwrap()].name(), "Fe-56");
    let syms = t.lower_symbols();
    assert_eq!(t.best_of("fe", &syms).map(|i| t.all[i].name()), Some("Fe-56".to_string()));
    assert_eq!(t.best_of("Fe", &syms), None);
    // There is an iron-57 but no iron-59: the best iron instead.
    assert_eq!(t.all[t.find("fe57").unwrap()].name(), "Fe-57");
    assert_eq!(t.find("fe59"), t.find("fe"));
}

#[test]
fn symbols_are_compared_in_lower_case() {
    let t = table();
    let syms = t.lower_symbols();
    assert_eq!(syms.len(), t.all.len());
    for (i, nuc) in t.all.iter().enumerate() {
        assert_eq!(syms[i], nuc.symbol.to_lowercase());
    }
    assert_eq!(syms[t.index(92, 146).unwrap()], "u");
    assert_eq!(syms[t.index(26, 30).unwrap()], "fe");
    // The key is read as given: lower case, trimmed, unseparated.
    assert_eq!(t.all[t.find_key("u238", &syms).unwrap()].name(), "U-238");
    assert_eq!(t.all[t.find_key("238u", &syms).unwrap()].name(), "U-238");
    assert_eq!(t.find_key("U238", &syms), None);
    assert_eq!(t.find_key("u", &syms), t.find("U"));
    assert_eq!(t.find_key("x1", &syms), None);
    assert_eq!(t.find_key("u99999999999", &syms), None);
}

#[test]
fn search_ignores_case_separators_and_outer_space() {
    let t = table();
    for q in ["U238", "u238", "238u", "U-238", "u_2 3-8", "\t  U238 \n", "2u38"] {
        assert_eq!(t.find(q), t.find("u238"), "query {q:?}");
    }
    for q in ["FE", "fe", " Fe ", "f-e", "fE"] {
        assert_eq!(t.find(q), t.find("Fe"), "query {q:?}");
    }
    assert_ne!(t.find("fe54"), t.find("fe56"));
}

#[test]
fn the_index_finds_each_nuclide_where_it_sits() {
    let t = table();
    for (i, nuc) in t.all.iter().enumerate() {
        assert_eq!(t.index(nuc.z, nuc.n), Some(i));
        assert_eq!(t.get(nuc.z, nuc.n).unwrap().name(), nuc.name());
    }
    assert_eq!(t.index(92, 147), None);
    assert_eq!(t.index(500, 0), None);
    assert_eq!(t.index(0, 5000), None);
    assert_eq!(t.z_max, 92);
    assert_eq!(t.n_max, 146);
}

#[test]
fn a_later_row_takes_the_place_of_an_earlier_one() {
    let mut all: Vec<Nuclide> = ROWS.lines().filter_map(nuclide).collect();
    let mut again = nuclide("26,30,Fe,0+,91.754,STABLE,STABLE,,8790.3557,-60607.1,1923").unwrap();
    again.jp = "again".to_string();
    all.push(again);
    let t = Table::new(all);
    assert_eq!(t.get(26, 30).unwrap().jp, "again");
    assert_eq!(t.index(26, 30), Some(t.all.len() - 1));
}

#[test]
fn isotopes_come_lightest_first() {
    let t = table();
    let fe: Vec<String> = t.isotopes_of(26).iter().map(|&i| t.all[i].name()).collect();
    assert_eq!(fe, vec!["Fe-54", "Fe-55", "Fe-56", "Fe-57", "Fe-58", "Fe-60"]);
    assert!(t.isotopes_of(27).is_empty());
    assert!(t.isotopes_of(4000).is_empty());
}

#[test]
fn chains_stop_where_the_trail_goes_cold() {
    let t = table();
    // Stable: a chain of one.
    let pb = t.chain(t.index(82, 124).unwrap());
    assert_eq!(pb.len(), 1);
    assert_eq!(pb[0], (t.index(82, 124).unwrap(), Decay::Stable));
    // Carbon-14 beta-decays to nitrogen-14, which the table lacks.
    let c14 = t.chain(t.index(6, 8).unwrap());
    assert_eq!(c14.len(), 1);
    // Each link is the daughter by the mother's main mode.
    let u = t.chain(t.index(92, 146).unwrap());
    for w in u.windows(2) {
        let (a, b) = (&t.all[w[0].0], &t.all[w[1].0]);
        let (dz, dn) = w[1].1.step().unwrap();
        assert_eq!(a.main_decay(), w[1].1);
        assert_eq!((a.z as i32 + dz, a.n as i32 + dn), (b.z as i32, b.n as i32));
    }
    assert_eq!(u.len(), 15);
}

#[test]
fn names_carry_the_mass_number() {
    let t = table();
    assert_eq!(t.get(1, 0).unwrap().name(), "H-1");
    assert_eq!(t.get(6, 8).unwrap().name(), "C-14");
    assert_eq!(t.get(6, 8).unwrap().a(), 14);
}

#[test]
fn the_main_decay_is_the_strongest_listed() {
    let t = table();
    assert_eq!(t.get(26, 30).unwrap().main_decay(), Decay::Stable);
    assert_eq!(t.get(83, 129).unwrap().main_decay(), Decay::BetaMinus);
    assert_eq!(t.get(26, 29).unwrap().main_decay(), Decay::BetaPlus);
    let mut odd = t.get(6, 8).unwrap().clone();
    odd.decays.clear();
    assert_eq!(odd.main_decay(), Decay::Unknown);
}

#[test]
fn summaries_say_tiny_and_stop_at_max() {
    let t = table();
    let fixed = |n: &Nuclide| -> Vec<Option<String>> {
        n.decays.iter().map(|(_, _, p)| p.map(|p| format!("{:.4}", f64::from_bits(p.bits)))).collect()
    };
    let bi = t.get(83, 129).unwrap();
    assert_eq!(bi.decay_summary(2, &fixed(bi)), "B- 64.06%, A 35.94%");
    let po = t.get(84, 134).unwrap();
    assert_eq!(po.decay_summary(3, &fixed(po)), "A 99.98%, B- 0.02%");
    let u234 = t.get(92, 142).unwrap();
    assert_eq!(u234.decay_summary(2, &fixed(u234)), "A 100%, SF tiny");
    assert_eq!(u234.decay_summary(1, &fixed(u234)), "A 100%, …");
    assert_eq!(u234.decay_summary(0, &fixed(u234)), "…");
    let k40 = t.get(19, 21).unwrap();
    assert_eq!(k40.decay_summary(2, &fixed(k40)), "B- 89.28%, EC 10.72%");
    assert_eq!(t.get(26, 30).unwrap().decay_summary(2, &vec![]), "stable");
    let mut none = t.get(6, 8).unwrap().clone();
    none.decays.clear();
    assert_eq!(none.decay_summary(2, &vec![]), "unknown");
}

/// An unmeasured half-life is not the same as stable.
#[test]
fn an_unmeasured_half_life_is_not_stable() {
    let exotic = nuclide("26,46,Fe,0+,,,,B-:100,7900,30000,2015").unwrap();
    assert!(!exotic.is_stable());
    assert!(exotic.half_life_s.is_none());
    assert_eq!(exotic.main_decay(), Decay::BetaMinus);
    let silent = nuclide("26,47,Fe,,,,,,,,").unwrap();
    assert!(!silent.is_stable());
    assert_eq!(silent.main_decay(), Decay::Unknown);
    let t = table();
    assert!(t.get(26, 30).unwrap().is_stable());
    assert!(t.all.iter().all(|n| (n.main_decay() == Decay::Stable) == n.is_stable()));
    // Said in words: "stable" only for the stable ones, "unknown" for the
    // unmeasured, and a number for the rest.
    assert_eq!(exotic.half_life_word(), Some("unknown"));
    assert_eq!(silent.half_life_word(), Some("unknown"));
    assert_eq!(t.get(26, 30).unwrap().half_life_word(), Some("stable"));
    assert_eq!(t.get(92, 146).unwrap().half_life_word(), None);
    assert_eq!(t.get(6, 8).unwrap().half_life_word(), None);
}
