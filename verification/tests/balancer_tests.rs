use tg_ws_proxy::proxy::balancer::{fronts_for, parse_domain_list, Balancer};
use tg_ws_proxy::proxy::utils::{dc_default_ips, get_link_host, ws_domains};

fn texts(list: &[&str]) -> Vec<String> {
    list.iter().map(|s| s.to_string()).collect()
}

#[test]
fn every_domain_is_listed_once_with_the_current_one_first() {
    let mut balancer = Balancer::new();
    assert_eq!(balancer.get_domains_for_dc(2), Vec::<String>::new());
    let names: Vec<String> = (0..20).map(|i| format!("d{}.com", i)).collect();
    balancer.update_domains_list(&names);
    let first = balancer.get_domains_for_dc(2);
    for dc in [1u32, 2, 3, 4, 5, 203, 9] {
        let mut order = balancer.get_domains_for_dc(dc);
        order.sort();
        let mut sorted = names.clone();
        sorted.sort();
        assert_eq!(order, sorted);
    }
    let again: Vec<Vec<String>> = (0..50).map(|_| balancer.get_domains_for_dc(2)).collect();
    assert!(again.iter().all(|order| order[0] == first[0]));
    assert!(again.iter().any(|order| *order != first));
}

#[test]
fn a_data_centre_can_be_moved() {
    let mut balancer: Balancer = Default::default();
    assert!(balancer.update_domain_for_dc(7, "x.com"));
    assert!(!balancer.update_domain_for_dc(7, "x.com"));
    assert!(balancer.update_domain_for_dc(7, "y.com"));
    assert_eq!(balancer.get_domains_for_dc(7), texts(&["y.com"]));
    assert_eq!(
        balancer.order_domains(7, &texts(&["a", "y.com", "b", "a"])),
        texts(&["y.com", "a", "b"])
    );
    assert_eq!(balancer.order_domains(8, &texts(&["a", "b", "a"])), texts(&["a", "b"]));
}

#[test]
fn chosen_domains_go_to_their_data_centres() {
    let mut balancer = Balancer::new();
    let chosen = vec![
        Some("a".to_string()),
        None,
        Some("b".to_string()),
        None,
        None,
        Some("a".to_string()),
    ];
    balancer.update_domain_for_dc(2, "forgotten");
    balancer.assign_domains(&texts(&["a", "b"]), &chosen);
    assert_eq!(balancer.order_domains(1, &Vec::new()), texts(&["a"]));
    assert_eq!(balancer.order_domains(2, &Vec::new()), Vec::<String>::new());
    assert_eq!(balancer.order_domains(3, &Vec::new()), texts(&["b"]));
    assert_eq!(balancer.order_domains(203, &Vec::new()), texts(&["a"]));
    balancer.update_domains_list(&[]);
    assert_eq!(balancer.get_domains_for_dc(1), Vec::<String>::new());
}

#[test]
fn domain_lists_have_one_domain_in_each_line() {
    assert_eq!(
        parse_domain_list("# a list\n  a.com \r\n\n\t#b.com\nc.com # here\n \nd.com"),
        texts(&["a.com", "c.com # here", "d.com"])
    );
    assert_eq!(parse_domain_list(""), Vec::<String>::new());
}

#[test]
fn only_a_text_that_names_domains_replaces_them() {
    let mut balancer = Balancer::new();
    assert!(balancer.refresh(Some("# two\na.com\n b.com \n")));
    for dc in [1u32, 2, 3, 4, 5, 203] {
        let mut order = balancer.get_domains_for_dc(dc);
        order.sort();
        assert_eq!(order, texts(&["a.com", "b.com"]));
    }
    assert!(!balancer.refresh(None));
    assert!(!balancer.refresh(Some("")));
    assert!(!balancer.refresh(Some("# nothing\n\n")));
    let mut kept = balancer.get_domains_for_dc(2);
    kept.sort();
    assert_eq!(kept, texts(&["a.com", "b.com"]));
    assert!(balancer.refresh(Some("c.com")));
    assert_eq!(balancer.get_domains_for_dc(2), texts(&["c.com"]));
}

#[test]
fn a_users_own_domains_come_before_the_balancers() {
    assert_eq!(
        fronts_for(&texts(&["u.com", "a.com"]), &texts(&["b.com", "a.com", "c.com"])),
        texts(&["u.com", "a.com", "b.com", "c.com"])
    );
    assert_eq!(fronts_for(&texts(&["u.com"]), &Vec::new()), texts(&["u.com"]));
    assert_eq!(fronts_for(&Vec::new(), &texts(&["b.com"])), texts(&["b.com"]));
}

#[test]
fn data_centres_have_addresses_and_fronts() {
    let ips = dc_default_ips();
    assert_eq!(ips.len(), 6);
    assert_eq!(ips[&1], "149.154.175.50");
    assert_eq!(ips[&203], "91.105.192.100");
    assert_eq!(ws_domains(4, false), texts(&["kws4.web.telegram.org", "kws4-1.web.telegram.org"]));
    assert_eq!(ws_domains(4, true), texts(&["kws4-1.web.telegram.org", "kws4.web.telegram.org"]));
    assert_eq!(ws_domains(203, false)[0], "kws2.web.telegram.org");
    assert_eq!(ws_domains(u32::MAX, false)[0], "kws4294967295.web.telegram.org");
}

#[test]
fn links_name_a_host_that_can_be_reached() {
    assert_eq!(get_link_host("1.2.3.4", Some("9.9.9.9".into())).as_deref(), Some("1.2.3.4"));
    assert_eq!(get_link_host("0.0.0.0", Some("9.9.9.9".into())).as_deref(), Some("9.9.9.9"));
    assert_eq!(get_link_host("0.0.0.0", None), None);
}
