use bytes::Bytes;
use fireweed::bounded::{BoundedMutationRequest, SetField};
use fireweed::groups::{aggregate_groups, GroupBy, GroupedAggregateRequest};
use fireweed::json::{Json, JsonNumber};
use fireweed::lookup::{decode_typed_lookup_value, typed_lookup_key, LookupValue};
use fireweed::mutation::PlanFault;
use fireweed::order::OrdMap;
use fireweed::queries::{
    filtered_lifecycle_metrics_by_index_key, value_matches_bucket, BucketRule, DeclaredBucketSegmentRequest,
    EncodedFilter, MetricsByQueryRequest,
};
use fireweed::rebuild::query_projection_from_index_keys;
use fireweed::scan::{OrderField, QueryCursor, RangeScanRequest, SortDirection, ValueMap};
use fireweed::typed::{
    days_from_civil, float_bits_of, number_float_bits, parse_utc_timestamp, truncate_timestamp, typed_value_compare, FilterOp,
    QueryFilter, TimeBucket,
};
use fireweed::types::{
    EligibilityPolicy, EngineError, Entity, GateKeyPolicy, IndexField, IndexFields, IndexType, ItemState, OrderingMode,
    PriorityDirection, PriorityModel, PriorityModelKind, QueueCommand, QueueDefinition, QueueIndex,
    RecurrenceMode, RecurrencePolicy, TypedValue, UtcTimestamp,
};
use std::sync::Arc;

fn definition() -> QueueDefinition {
    QueueDefinition {
        priority_model: PriorityModel {
            kind: PriorityModelKind::Int64,
            direction: PriorityDirection::Ascending,
        },
        ordering_mode: OrderingMode::Strict,
        max_rank_error: 0,
        recurrence: RecurrencePolicy { mode: RecurrenceMode::Oneshot, until: None },
        eligibility_policy: EligibilityPolicy {
            gate_keys: GateKeyPolicy::Disabled,
            max_gate_keys_per_item: None,
            max_gates_per_request: None,
        },
        cohort_completion_bound_ms: None,
        request_id_retention_ms: 60_000,
        client_item_key_retention_ms: 60_000,
        terminal_retention_ms: 60_000,
        secondary_indexes: vec![],
        typed_indexes: vec![QueueIndex {
            name: "by_score".to_string(),
            fields: vec![IndexField { field: "score".to_string(), index_type: IndexType::Integer }],
            unique: false,
        }],
    }
}

fn key(score: i64) -> Vec<u8> {
    let mut out = vec![0, 0, 0, 8];
    out.extend(((score as u64) ^ (1 << 63)).to_be_bytes());
    out
}

/// Works out the keys of a document.
fn entity(document: Json) -> Arc<Entity> {
    let keys = match &document {
        Json::Object(members) => match members.first() {
            Some((_, Json::Number(n))) => vec![("by_score".to_string(), key(n.as_i64().unwrap()))],
            _ => vec![],
        },
        _ => vec![],
    };
    Arc::new(Entity {
        document,
        keys: Ok(keys),
        extracted: Ok(IndexFields { empty: true, stored: Ok(None), keys: Ok(vec![]) }),
    })
}

/// Asks again until the keys of all documents are known.
fn with_known<T>(mut ask: impl FnMut(&Vec<Arc<Entity>>) -> Result<T, PlanFault>) -> T {
    let mut known = vec![];
    loop {
        match ask(&known) {
            Ok(t) => return t,
            Err(PlanFault::Unknown(document)) => known.push(entity(document)),
            Err(PlanFault::Failed(e)) => panic!("{e:?}"),
        }
    }
}

fn by_score(op: FilterOp, value: i64) -> Vec<QueryFilter> {
    vec![QueryFilter { field: "score".to_string(), op, value: TypedValue::Integer(value) }]
}

#[test]
fn canonical_index_keys_reuse_shared_range_group_and_bucket_semantics() {
    let definition = definition();
    let index = Some("by_score".to_string());
    let records = vec![(2, Some(key(2))), (1, Some(key(1))), (3, None)];
    let mut projection =
        with_known(|known| query_projection_from_index_keys(&definition, &index, &records, known));

    let range = projection
        .range_scan(&RangeScanRequest {
            index: Some("by_score".to_string()),
            filters: by_score(FilterOp::Gte, 1),
            order_by: vec![OrderField { field: "score".to_string(), direction: SortDirection::Ascending }],
            page_size: 10,
            cursor: QueryCursor::Start,
        })
        .ok()
        .unwrap();
    assert_eq!(range.rows.iter().map(|row| row.item_id).collect::<Vec<_>>(), vec![1, 2]);

    let request = GroupedAggregateRequest {
        index: Some("by_score".to_string()),
        filters: vec![],
        group_by: vec![GroupBy { field: "score".to_string(), time_bucket: None }],
        max_groups: 10,
    };
    let keys = projection.group_keys(&request).ok().unwrap();
    let names = keys
        .iter()
        .map(|k| Ok(format!("{:?}", k.get(&"score".to_string()).unwrap())))
        .collect();
    let grouped = projection.grouped_aggregate(&request, &names).ok().unwrap();
    assert_eq!(grouped.len(), 2);

    let bucketed = projection
        .declared_bucket_segment(&DeclaredBucketSegmentRequest {
            index: Some("by_score".to_string()),
            filters: vec![],
            field: "score".to_string(),
            buckets: vec![BucketRule {
                label: "one".to_string(),
                exact: Some(1f64.to_bits()),
                gt: None,
                gte: None,
                lt: None,
                lte: None,
            }],
            null_bucket_label: "missing".to_string(),
            well_formed: true,
        })
        .ok()
        .unwrap();
    assert_eq!(bucketed.buckets[0].count, 1);
    assert_eq!(bucketed.buckets[1].count, 1);

    let request = BoundedMutationRequest {
        index: Some("by_score".to_string()),
        filters: by_score(FilterOp::Eq, 1),
        set_fields: vec![SetField {
            name: "score".to_string(),
            value: TypedValue::Integer(3),
            stored: Ok(Bytes::from_static(b"3")),
        }],
        max_scan_rows: 10,
    };
    let mut plan = with_known(|known| projection.plan_bounded_mutation(&request, known));
    assert_eq!(plan.updates.len(), 1);
    assert_eq!(projection.item_version(1), Some(1));
    let update = plan.updates.remove(0).command;
    assert!(projection.apply_command(&QueueCommand::UpdateFields(update)).is_ok());
    assert_eq!(projection.item_version(1), Some(2));
}

#[test]
fn bounded_mutations_answer_every_row() {
    let definition = definition();
    let index = Some("by_score".to_string());
    let records = vec![(1, Some(key(1))), (2, Some(key(5)))];
    let mut projection =
        with_known(|known| query_projection_from_index_keys(&definition, &index, &records, known));
    let request = BoundedMutationRequest {
        index: Some("by_score".to_string()),
        filters: by_score(FilterOp::Gt, 0),
        set_fields: vec![SetField {
            name: "score".to_string(),
            value: TypedValue::Integer(9),
            stored: Ok(Bytes::from_static(b"9")),
        }],
        max_scan_rows: 10,
    };
    let response = with_known(|known| projection.bounded_mutation(&request, known));
    assert_eq!(response.results.len(), 2);
    assert_eq!((projection.item_version(1), projection.item_version(2)), (Some(2), Some(2)));
    let found = projection
        .range_scan(&RangeScanRequest {
            index: Some("by_score".to_string()),
            filters: by_score(FilterOp::Eq, 9),
            order_by: vec![OrderField { field: "score".to_string(), direction: SortDirection::Ascending }],
            page_size: 10,
            cursor: QueryCursor::Start,
        })
        .ok()
        .unwrap();
    assert_eq!(found.rows.len(), 2);
}

#[test]
fn pages_of_a_scan_follow_each_other() {
    let definition = definition();
    let index = Some("by_score".to_string());
    let records = (1..=5).map(|id| (id, Some(key(10 - id as i64)))).collect();
    let projection =
        with_known(|known| query_projection_from_index_keys(&definition, &index, &records, known));
    let order = || vec![OrderField { field: "score".to_string(), direction: SortDirection::Descending }];
    let mut cursor = QueryCursor::Start;
    let mut seen = vec![];
    loop {
        let page = projection
            .range_scan(&RangeScanRequest {
                index: Some("by_score".to_string()),
                filters: vec![],
                order_by: order(),
                page_size: if seen.is_empty() { 1 } else { 2 },
                cursor,
            })
            .ok()
            .unwrap();
        seen.extend(page.rows.iter().map(|row| row.item_id));
        match page.next_cursor {
            Some(next) => {
                assert_eq!(next.anchor_item_id, *seen.last().unwrap());
                assert!(next.anchor_index_key.is_none());
                cursor = QueryCursor::After(next)
            }
            None => break,
        }
    }
    assert_eq!(seen, vec![1, 2, 3, 4, 5]);
}

#[test]
fn numbers_are_equal_by_kind_and_value() {
    let number = |n: JsonNumber| Json::Array(vec![Json::Number(n)]);
    let zero = number(JsonNumber::Float(0f64.to_bits()));
    let minus = number(JsonNumber::Float((-0f64).to_bits()));
    assert!(zero.same(&minus));
    assert!(!zero.identical(&minus));
    assert!(!zero.same(&number(JsonNumber::Unsigned(0))));
    let most = number(JsonNumber::Unsigned(u64::MAX));
    assert!(most.same(&number(JsonNumber::Unsigned(u64::MAX))));
    assert!(!most.same(&number(JsonNumber::Unsigned(u64::MAX - 1))));
    assert_eq!(JsonNumber::Unsigned(u64::MAX).as_i64(), None);
    assert_eq!(JsonNumber::Unsigned(7).as_i64(), Some(7));
    assert_eq!(JsonNumber::from_i64(-7).as_i64(), Some(-7));
    for v in [0u64, 1, 1 << 53, (1 << 53) + 1, u64::MAX - 1024, u64::MAX - 1023, u64::MAX] {
        assert_eq!(number_float_bits(&JsonNumber::Unsigned(v)), (v as f64).to_bits(), "{v}");
    }
}

#[test]
fn scans_refuse_bad_requests() {
    let definition = definition();
    let index = Some("by_score".to_string());
    let records = vec![(1, Some(key(1)))];
    let projection =
        with_known(|known| query_projection_from_index_keys(&definition, &index, &records, known));
    let scan = |page_size: u32, field: &str, cursor: QueryCursor| {
        projection.range_scan(&RangeScanRequest {
            index: Some("by_score".to_string()),
            filters: vec![],
            order_by: vec![OrderField { field: field.to_string(), direction: SortDirection::Ascending }],
            page_size,
            cursor,
        })
    };
    assert!(scan(10, "score", QueryCursor::Start).is_ok());
    assert!(matches!(scan(0, "score", QueryCursor::Start), Err(EngineError::Invalid(_))));
    assert!(matches!(scan(1001, "score", QueryCursor::Start), Err(EngineError::Invalid(_))));
    assert!(matches!(scan(10, "size", QueryCursor::Start), Err(EngineError::Invalid(_))));
    assert!(matches!(scan(10, "score", QueryCursor::Unreadable), Err(EngineError::Invalid(_))));
}

#[test]
fn stored_keys_that_do_not_decode_are_refused() {
    let definition = definition();
    let index = Some("by_score".to_string());
    for bad in [vec![], vec![0, 0, 0, 8, 1], vec![0, 0, 0, 7, 0, 0, 0, 0, 0, 0, 0]] {
        let r = query_projection_from_index_keys(&definition, &index, &vec![(1, Some(bad))], &vec![]);
        match r {
            Err(PlanFault::Failed(EngineError::Storage(text))) => {
                assert_eq!(text, "invalid canonical index key")
            }
            _ => panic!("a broken key was read"),
        }
    }
    let r = query_projection_from_index_keys(&definition, &index, &vec![(1, Some(key(4)))], &vec![]);
    match r {
        Err(PlanFault::Unknown(document)) => assert!(document.same(&Json::Object(vec![(
            "score".to_string(),
            Json::Number(JsonNumber::Unsigned(4)),
        )]))),
        _ => panic!("the document was not handed back"),
    }
}

#[test]
fn groups_count_the_items_under_each_name() {
    let key = |n: i64| {
        let mut m: ValueMap = OrdMap::new();
        m.insert("score".to_string(), TypedValue::Integer(n));
        m
    };
    let keys = vec![key(1), key(2), key(1)];
    let names = vec![Ok("b".to_string()), Ok("a".to_string()), Ok("b".to_string())];
    let groups = aggregate_groups(&keys, &names, 10).ok().unwrap();
    assert_eq!(groups.iter().map(|g| g.count).collect::<Vec<_>>(), vec![1, 2]);
    assert!(aggregate_groups(&keys, &names, 1).is_err());
}

#[test]
fn buckets_hold_values_within_their_bounds() {
    let rule = BucketRule {
        label: "mid".to_string(),
        exact: None,
        gt: Some(1.5f64.to_bits()),
        gte: None,
        lt: None,
        lte: Some(4f64.to_bits()),
    };
    let at = |n: i64| value_matches_bucket(&TypedValue::Integer(n), &rule);
    assert_eq!((at(1), at(2), at(4), at(5)), (false, true, true, false));
    assert!(value_matches_bucket(&TypedValue::Float(1.75f64.to_bits()), &rule));
    assert!(!value_matches_bucket(&TypedValue::Float((-1.75f64).to_bits()), &rule));
    assert!(!value_matches_bucket(&TypedValue::Bool(true), &rule));
}

#[test]
fn integers_convert_to_the_nearest_float() {
    for v in [
        0,
        1,
        -1,
        7,
        1 << 52,
        (1 << 53) + 1,
        (1 << 53) + 3,
        -((1 << 54) + 2),
        i64::MAX,
        i64::MIN,
        0x7fff_ffff_ffff_fdff,
        123_456_789_012_345_678,
    ] {
        assert_eq!(float_bits_of(v), (v as f64).to_bits(), "{v}");
    }
}

#[test]
fn days_and_instants_follow_the_calendar() {
    assert_eq!(days_from_civil(1970, 1, 1), 0);
    assert_eq!(days_from_civil(2000, 3, 1), 11017);
    assert_eq!(days_from_civil(1969, 12, 31), -1);
    assert_eq!(days_from_civil(2000, -10, 1), 10621);
    let t = parse_utc_timestamp("2024-02-29T12:30:15.25Z").ok().unwrap();
    assert_eq!((t.seconds, t.nanoseconds), (1_709_209_815, 250_000_000));
    for bad in ["2024-02-29", "2024-01-01T00:00Z", "2024-02-29T12:30:15", "2024-01-01T00:00:00.Z", "x"] {
        assert!(parse_utc_timestamp(bad).is_err(), "{bad}");
    }
    let at = UtcTimestamp { seconds: -1, nanoseconds: 5 };
    assert_eq!(truncate_timestamp(at, TimeBucket::Hour), UtcTimestamp { seconds: -3600, nanoseconds: 0 });
    assert_eq!(truncate_timestamp(at, TimeBucket::Day), UtcTimestamp { seconds: -86400, nanoseconds: 0 });
}

#[test]
fn values_of_different_types_do_not_compare() {
    assert!(typed_value_compare(&TypedValue::Integer(1), &TypedValue::Bool(true)).is_err());
    assert!(typed_value_compare(&TypedValue::Integer(1), &TypedValue::Integer(2)).is_ok());
}

#[test]
fn counts_by_query_go_by_the_documents_that_match() {
    let definition = definition();
    let index = Some("by_score".to_string());
    let records = vec![(1, Some(key(1))), (2, Some(key(2))), (3, Some(key(3)))];
    let projection = with_known(|known| query_projection_from_index_keys(&definition, &index, &records, known));
    let counted = projection
        .metrics_by_query(&MetricsByQueryRequest { index, filters: by_score(FilterOp::Gte, 2) })
        .ok()
        .unwrap();
    assert_eq!((counted.pending, counted.complete), (2, 0));
    let missing = MetricsByQueryRequest { index: Some("by_size".to_string()), filters: vec![] };
    assert!(projection.metrics_by_query(&missing).is_err());
}

#[test]
fn counts_by_key_go_by_the_stored_keys_that_match() {
    let indexes = definition().typed_indexes;
    let index = Some("by_score".to_string());
    let filters = vec![EncodedFilter {
        filter: by_score(FilterOp::Eq, 2).pop().unwrap(),
        encoded: Some(key(2)[4..].to_vec()),
    }];
    let records = vec![
        (ItemState::Pending, false, key(2)),
        (ItemState::Complete, false, key(2)),
        (ItemState::Pending, true, key(2)),
        (ItemState::Leased, false, key(3)),
    ];
    let counted = filtered_lifecycle_metrics_by_index_key(&indexes, &index, &filters, &records).ok().unwrap();
    assert_eq!((counted.pending, counted.complete, counted.leased), (1, 1, 0));
}

#[test]
fn stored_text_keys_read_as_text() {
    let definition = QueueDefinition {
        typed_indexes: vec![QueueIndex {
            name: "by_name".to_string(),
            fields: vec![IndexField { field: "name".to_string(), index_type: IndexType::String }],
            unique: false,
        }],
        ..definition()
    };
    let index = Some("by_name".to_string());
    let records = vec![(1, Some(vec![0, 0, 0, 3, b'a', b'b', b'c'])), (2, Some(vec![0, 0, 0, 2, 0xc3, 0xa9]))];
    let projection = with_known(|known| query_projection_from_index_keys(&definition, &index, &records, known));
    for name in ["abc", "é"] {
        let filters = vec![QueryFilter {
            field: "name".to_string(),
            op: FilterOp::Eq,
            value: TypedValue::String(name.to_string()),
        }];
        let counted =
            projection.metrics_by_query(&MetricsByQueryRequest { index: index.clone(), filters }).ok().unwrap();
        assert_eq!(counted.pending, 1);
    }
    let broken = vec![(1, Some(vec![0, 0, 0, 1, 0xff]))];
    let r = query_projection_from_index_keys(&definition, &index, &broken, &vec![]);
    assert!(matches!(r, Err(PlanFault::Failed(EngineError::Storage(_)))));
}

#[test]
fn lookup_values_are_read_by_the_type_of_the_index() {
    let read = |t: IndexType, bytes: &[u8]| decode_typed_lookup_value(t, &bytes.to_vec());
    let json = |bytes: &[u8]| LookupValue::Json(bytes.to_vec());
    let text = |t: &str| LookupValue::Text(t.to_string());
    assert_eq!(read(IndexType::String, b"123").ok(), Some(text("123")));
    assert_eq!(read(IndexType::Datetime, b"17").ok(), Some(json(b"17")));
    assert_eq!(read(IndexType::Datetime, b"\"17\"").ok(), Some(text("\"17\"")));
    assert_eq!(read(IndexType::Datetime, b"2026-01-02T00:00:00Z").ok(), Some(text("2026-01-02T00:00:00Z")));
    assert_eq!(read(IndexType::Integer, b"12").ok(), Some(json(b"12")));
    assert_eq!(read(IndexType::Integer, b"{}").ok(), Some(json(b"{}")));
    assert_eq!(read(IndexType::Boolean, b"true").ok(), Some(json(b"true")));
    for (t, bytes, why) in [
        (IndexType::String, &b"\xff"[..], "lookup key is not valid UTF-8"),
        (IndexType::Datetime, &b"\xff"[..], "lookup key is not valid UTF-8"),
        (IndexType::Integer, &b"1x"[..], "lookup key is not a valid JSON number"),
        (IndexType::Float, &b""[..], "lookup key is not a valid JSON number"),
        (IndexType::Boolean, &b"tru"[..], "lookup key is not a valid JSON boolean"),
    ] {
        assert!(matches!(read(t, bytes), Err(EngineError::Invalid(text)) if text == why));
    }
}

#[test]
fn lookups_in_a_typed_index_name_their_fields() {
    let definition = definition();
    let index = Some("by_score".to_string());
    let projection =
        with_known(|known| query_projection_from_index_keys(&definition, &index, &vec![(1, Some(key(4)))], known));
    let fields = projection.lookup_fields("by_score", &vec![b"4".to_vec()]).ok().unwrap();
    assert_eq!(fields, Some(vec![("score".to_string(), LookupValue::Json(b"4".to_vec()))]));
    assert!(projection.lookup_fields("by_score", &vec![]).is_err());
    assert!(projection.lookup_fields("by_size", &vec![b"4".to_vec()]).is_err());
    let hits = projection
        .index_lookup("by_score", &vec![b"4".to_vec()], typed_lookup_key(Ok(Some(key(4)))))
        .ok()
        .unwrap();
    assert_eq!(hits.iter().map(|h| h.item_id).collect::<Vec<_>>(), vec![1]);
    assert!(matches!(typed_lookup_key(Ok(None)), Err(EngineError::Storage(t)) if t == "missing lookup key"));
    assert!(matches!(typed_lookup_key(Err("no".to_string())), Err(EngineError::Storage(t)) if t == "no"));
}
