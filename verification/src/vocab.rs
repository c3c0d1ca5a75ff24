//! The fixed morpheme dictionary.
//!
//! A closed table mapping each morpheme to its gloss.  Segmentation tests
//! membership of the key column; translation replaces each morpheme by its
//! gloss, falling back to the morpheme itself when it is absent.

use vstd::prelude::*;

verus! {

/// The dictionary as ordered (morpheme, gloss) pairs.
pub open spec fn spec_dict() -> Seq<(Seq<char>, Seq<char>)> {
    seq![
        ("d^"@, "命令"@),
        ("c^"@, "疑問"@),
        ("wa*t"@, "何の"@),
        ("d:i"@, "これ"@),
        ("da*t"@, "それ"@),
        ("mi"@, "私"@),
        ("yu"@, "あなた"@),
        ("ze"@, "彼"@),
        ("taim"@, "時間"@),
        ("deit"@, "日"@),
        ("land"@, "場所"@),
        ("est"@, "説明"@),
        ("ed"@, "過去"@),
        ("il"@, "未来"@),
        ("av"@, "現在"@),
        ("i-t"@, "食べる"@),
        ("spi-k"@, "言う"@),
        ("a:ud"@, "聞く"@),
        ("lang"@, "言葉"@),
        ("lu*k"@, "見る"@),
        ("sve-t"@, "光"@),
        ("da-k"@, "闇"@),
        ("hom"@, "人間"@),
        ("a-l"@, "集合"@),
        ("komon"@, "共通"@),
        ("can"@, "可能"@),
        ("izm"@, "主義"@),
        ("ist"@, "もの"@),
        ("ide"@, "概念"@),
        ("liber"@, "自由"@),
        ("re-zun"@, "理性"@),
        ("soci"@, "社会"@),
        ("stran"@, "地域"@),
        ("naci"@, "国家"@),
        ("blast"@, "権力"@),
        ("anark"@, "無政府"@),
        ("ru-n"@, "走る"@),
        ("k^alk"@, "計算"@),
        ("saiens"@, "学問"@),
        ("memor"@, "記憶"@),
        ("nam"@, "数"@),
        ("waz"@, "技術"@),
        ("wa-k"@, "仕事"@),
        ("a*d"@, "足し"@),
        ("pul"@, "引き"@),
        ("kak"@, "掛け"@),
        ("div"@, "割り"@),
        ("act"@, "する"@),
        ("mov"@, "動き"@),
        ("pros"@, "処理"@),
        ("o-da"@, "命令"@),
        ("plei"@, "遊び"@),
        ("raik"@, "みたい"@),
        ("lit"@, "性質"@),
        ("kain"@, "種類"@),
        ("aiz"@, "変化"@),
        ("scir"@, "させる"@),
        ("ne"@, "否定"@),
        ("anti"@, "反対"@),
        ("yes"@, "肯定"@),
        ("un"@, "無い"@),
        ("on"@, "有る"@),
        ("in"@, "中に"@),
        ("at"@, "には"@),
        ("ter"@, "越え"@),
        ("de-t"@, "データ"@),
        ("eny"@, "何か"@),
        ("meny"@, "複数"@),
        ("k^om"@, "興味"@),
        ("lav"@, "愛"@),
        ("feiv"@, "好"@),
        ("ho-p"@, "希望"@),
        ("teik"@, "取得"@),
        ("los"@, "失う"@),
        ("hav"@, "持つ"@),
        ("o-st"@, "最も"@),
        ("e-r"@, "より"@),
        ("und"@, "かつ"@),
        ("lor"@, "また"@),
        ("t:u-"@, "過ぎる"@),
        ("pawa"@, "力"@),
        ("brein"@, "脳"@),
        ("ful"@, "強い"@),
        ("les"@, "弱い"@),
        ("prev"@, "前の"@),
        ("forv"@, "次の"@),
        ("gu*d"@, "良い"@),
        ("ba*d"@, "悪い"@),
        ("lo*t"@, "多い"@),
        ("bi*t"@, "少ない"@),
        ("bes^"@, "全て"@),
        ("mond"@, "世界"@),
        ("batl"@, "戦い"@),
        ("wa-r"@, "争う"@),
        ("final"@, "最後"@),
        ("wiz"@, "共に"@),
        ("stand"@, "立つ"@),
        ("deci"@, "決定"@),
        ("frend"@, "友達"@),
        ("rela"@, "関係"@),
        ("emo-t"@, "心"@),
        ("bunt"@, "同盟"@),
        ("join"@, "参加"@),
    ]
}

/// The gloss paired with the first key equal to `m`, if any.
pub open spec fn lookup_from(d: Seq<(Seq<char>, Seq<char>)>, m: Seq<char>) -> Option<Seq<char>>
    decreases d.len(),
{
    if d.len() == 0 {
        None
    } else if d[0].0 == m {
        Some(d[0].1)
    } else {
        lookup_from(d.skip(1), m)
    }
}

/// Whether `m` is a dictionary morpheme.
pub open spec fn is_key(m: Seq<char>) -> bool {
    lookup_from(spec_dict(), m) is Some
}

/// The gloss of `m`, or `m` itself when it is not in the dictionary.
pub open spec fn gloss(m: Seq<char>) -> Seq<char> {
    match lookup_from(spec_dict(), m) {
        Some(g) => g,
        None => m,
    }
}

/// The morpheme dictionary as a list of (morpheme, gloss) pairs, in a fixed
/// order with each morpheme appearing once.
#[verifier::rlimit(100)]
pub fn dict() -> (d: Vec<(String, String)>)
    ensures
        d.deep_view() == spec_dict(),
{
    let mut d: Vec<(String, String)> = Vec::new();
    d.push((String::from_str("d^"), String::from_str("命令")));
    proof { assert(d.deep_view() =~~= spec_dict().take(1)); }
    d.push((String::from_str("c^"), String::from_str("疑問")));
    proof { assert(d.deep_view() =~~= spec_dict().take(2)); }
    d.push((String::from_str("wa*t"), String::from_str("何の")));
    proof { assert(d.deep_view() =~~= spec_dict().take(3)); }
    d.push((String::from_str("d:i"), String::from_str("これ")));
    proof { assert(d.deep_view() =~~= spec_dict().take(4)); }
    d.push((String::from_str("da*t"), String::from_str("それ")));
    proof { assert(d.deep_view() =~~= spec_dict().take(5)); }
    d.push((String::from_str("mi"), String::from_str("私")));
    proof { assert(d.deep_view() =~~= spec_dict().take(6)); }
    d.push((String::from_str("yu"), String::from_str("あなた")));
    proof { assert(d.deep_view() =~~= spec_dict().take(7)); }
    d.push((String::from_str("ze"), String::from_str("彼")));
    proof { assert(d.deep_view() =~~= spec_dict().take(8)); }
    d.push((String::from_str("taim"), String::from_str("時間")));
    proof { assert(d.deep_view() =~~= spec_dict().take(9)); }
    d.push((String::from_str("deit"), String::from_str("日")));
    proof { assert(d.deep_view() =~~= spec_dict().take(10)); }
    d.push((String::from_str("land"), String::from_str("場所")));
    proof { assert(d.deep_view() =~~= spec_dict().take(11)); }
    d.push((String::from_str("est"), String::from_str("説明")));
    proof { assert(d.deep_view() =~~= spec_dict().take(12)); }
    d.push((String::from_str("ed"), String::from_str("過去")));
    proof { assert(d.deep_view() =~~= spec_dict().take(13)); }
    d.push((String::from_str("il"), String::from_str("未来")));
    proof { assert(d.deep_view() =~~= spec_dict().take(14)); }
    d.push((String::from_str("av"), String::from_str("現在")));
    proof { assert(d.deep_view() =~~= spec_dict().take(15)); }
    d.push((String::from_str("i-t"), String::from_str("食べる")));
    proof { assert(d.deep_view() =~~= spec_dict().take(16)); }
    d.push((String::from_str("spi-k"), String::from_str("言う")));
    proof { assert(d.deep_view() =~~= spec_dict().take(17)); }
    d.push((String::from_str("a:ud"), String::from_str("聞く")));
    proof { assert(d.deep_view() =~~= spec_dict().take(18)); }
    d.push((String::from_str("lang"), String::from_str("言葉")));
    proof { assert(d.deep_view() =~~= spec_dict().take(19)); }
    d.push((String::from_str("lu*k"), String::from_str("見る")));
    proof { assert(d.deep_view() =~~= spec_dict().take(20)); }
    d.push((String::from_str("sve-t"), String::from_str("光")));
    proof { assert(d.deep_view() =~~= spec_dict().take(21)); }
    d.push((String::from_str("da-k"), String::from_str("闇")));
    proof { assert(d.deep_view() =~~= spec_dict().take(22)); }
    d.push((String::from_str("hom"), String::from_str("人間")));
    proof { assert(d.deep_view() =~~= spec_dict().take(23)); }
    d.push((String::from_str("a-l"), String::from_str("集合")));
    proof { assert(d.deep_view() =~~= spec_dict().take(24)); }
    d.push((String::from_str("komon"), String::from_str("共通")));
    proof { assert(d.deep_view() =~~= spec_dict().take(25)); }
    d.push((String::from_str("can"), String::from_str("可能")));
    proof { assert(d.deep_view() =~~= spec_dict().take(26)); }
    d.push((String::from_str("izm"), String::from_str("主義")));
    proof { assert(d.deep_view() =~~= spec_dict().take(27)); }
    d.push((String::from_str("ist"), String::from_str("もの")));
    proof { assert(d.deep_view() =~~= spec_dict().take(28)); }
    d.push((String::from_str("ide"), String::from_str("概念")));
    proof { assert(d.deep_view() =~~= spec_dict().take(29)); }
    d.push((String::from_str("liber"), String::from_str("自由")));
    proof { assert(d.deep_view() =~~= spec_dict().take(30)); }
    d.push((String::from_str("re-zun"), String::from_str("理性")));
    proof { assert(d.deep_view() =~~= spec_dict().take(31)); }
    d.push((String::from_str("soci"), String::from_str("社会")));
    proof { assert(d.deep_view() =~~= spec_dict().take(32)); }
    d.push((String::from_str("stran"), String::from_str("地域")));
    proof { assert(d.deep_view() =~~= spec_dict().take(33)); }
    d.push((String::from_str("naci"), String::from_str("国家")));
    proof { assert(d.deep_view() =~~= spec_dict().take(34)); }
    d.push((String::from_str("blast"), String::from_str("権力")));
    proof { assert(d.deep_view() =~~= spec_dict().take(35)); }
    d.push((String::from_str("anark"), String::from_str("無政府")));
    proof { assert(d.deep_view() =~~= spec_dict().take(36)); }
    d.push((String::from_str("ru-n"), String::from_str("走る")));
    proof { assert(d.deep_view() =~~= spec_dict().take(37)); }
    d.push((String::from_str("k^alk"), String::from_str("計算")));
    proof { assert(d.deep_view() =~~= spec_dict().take(38)); }
    d.push((String::from_str("saiens"), String::from_str("学問")));
    proof { assert(d.deep_view() =~~= spec_dict().take(39)); }
    d.push((String::from_str("memor"), String::from_str("記憶")));
    proof { assert(d.deep_view() =~~= spec_dict().take(40)); }
    d.push((String::from_str("nam"), String::from_str("数")));
    proof { assert(d.deep_view() =~~= spec_dict().take(41)); }
    d.push((String::from_str("waz"), String::from_str("技術")));
    proof { assert(d.deep_view() =~~= spec_dict().take(42)); }
    d.push((String::from_str("wa-k"), String::from_str("仕事")));
    proof { assert(d.deep_view() =~~= spec_dict().take(43)); }
    d.push((String::from_str("a*d"), String::from_str("足し")));
    proof { assert(d.deep_view() =~~= spec_dict().take(44)); }
    d.push((String::from_str("pul"), String::from_str("引き")));
    proof { assert(d.deep_view() =~~= spec_dict().take(45)); }
    d.push((String::from_str("kak"), String::from_str("掛け")));
    proof { assert(d.deep_view() =~~= spec_dict().take(46)); }
    d.push((String::from_str("div"), String::from_str("割り")));
    proof { assert(d.deep_view() =~~= spec_dict().take(47)); }
    d.push((String::from_str("act"), String::from_str("する")));
    proof { assert(d.deep_view() =~~= spec_dict().take(48)); }
    d.push((String::from_str("mov"), String::from_str("動き")));
    proof { assert(d.deep_view() =~~= spec_dict().take(49)); }
    d.push((String::from_str("pros"), String::from_str("処理")));
    proof { assert(d.deep_view() =~~= spec_dict().take(50)); }
    d.push((String::from_str("o-da"), String::from_str("命令")));
    proof { assert(d.deep_view() =~~= spec_dict().take(51)); }
    d.push((String::from_str("plei"), String::from_str("遊び")));
    proof { assert(d.deep_view() =~~= spec_dict().take(52)); }
    d.push((String::from_str("raik"), String::from_str("みたい")));
    proof { assert(d.deep_view() =~~= spec_dict().take(53)); }
    d.push((String::from_str("lit"), String::from_str("性質")));
    proof { assert(d.deep_view() =~~= spec_dict().take(54)); }
    d.push((String::from_str("kain"), String::from_str("種類")));
    proof { assert(d.deep_view() =~~= spec_dict().take(55)); }
    d.push((String::from_str("aiz"), String::from_str("変化")));
    proof { assert(d.deep_view() =~~= spec_dict().take(56)); }
    d.push((String::from_str("scir"), String::from_str("させる")));
    proof { assert(d.deep_view() =~~= spec_dict().take(57)); }
    d.push((String::from_str("ne"), String::from_str("否定")));
    proof { assert(d.deep_view() =~~= spec_dict().take(58)); }
    d.push((String::from_str("anti"), String::from_str("反対")));
    proof { assert(d.deep_view() =~~= spec_dict().take(59)); }
    d.push((String::from_str("yes"), String::from_str("肯定")));
    proof { assert(d.deep_view() =~~= spec_dict().take(60)); }
    d.push((String::from_str("un"), String::from_str("無い")));
    proof { assert(d.deep_view() =~~= spec_dict().take(61)); }
    d.push((String::from_str("on"), String::from_str("有る")));
    proof { assert(d.deep_view() =~~= spec_dict().take(62)); }
    d.push((String::from_str("in"), String::from_str("中に")));
    proof { assert(d.deep_view() =~~= spec_dict().take(63)); }
    d.push((String::from_str("at"), String::from_str("には")));
    proof { assert(d.deep_view() =~~= spec_dict().take(64)); }
    d.push((String::from_str("ter"), String::from_str("越え")));
    proof { assert(d.deep_view() =~~= spec_dict().take(65)); }
    d.push((String::from_str("de-t"), String::from_str("データ")));
    proof { assert(d.deep_view() =~~= spec_dict().take(66)); }
    d.push((String::from_str("eny"), String::from_str("何か")));
    proof { assert(d.deep_view() =~~= spec_dict().take(67)); }
    d.push((String::from_str("meny"), String::from_str("複数")));
    proof { assert(d.deep_view() =~~= spec_dict().take(68)); }
    d.push((String::from_str("k^om"), String::from_str("興味")));
    proof { assert(d.deep_view() =~~= spec_dict().take(69)); }
    d.push((String::from_str("lav"), String::from_str("愛")));
    proof { assert(d.deep_view() =~~= spec_dict().take(70)); }
    d.push((String::from_str("feiv"), String::from_str("好")));
    proof { assert(d.deep_view() =~~= spec_dict().take(71)); }
    d.push((String::from_str("ho-p"), String::from_str("希望")));
    proof { assert(d.deep_view() =~~= spec_dict().take(72)); }
    d.push((String::from_str("teik"), String::from_str("取得")));
    proof { assert(d.deep_view() =~~= spec_dict().take(73)); }
    d.push((String::from_str("los"), String::from_str("失う")));
    proof { assert(d.deep_view() =~~= spec_dict().take(74)); }
    d.push((String::from_str("hav"), String::from_str("持つ")));
    proof { assert(d.deep_view() =~~= spec_dict().take(75)); }
    d.push((String::from_str("o-st"), String::from_str("最も")));
    proof { assert(d.deep_view() =~~= spec_dict().take(76)); }
    d.push((String::from_str("e-r"), String::from_str("より")));
    proof { assert(d.deep_view() =~~= spec_dict().take(77)); }
    d.push((String::from_str("und"), String::from_str("かつ")));
    proof { assert(d.deep_view() =~~= spec_dict().take(78)); }
    d.push((String::from_str("lor"), String::from_str("また")));
    proof { assert(d.deep_view() =~~= spec_dict().take(79)); }
    d.push((String::from_str("t:u-"), String::from_str("過ぎる")));
    proof { assert(d.deep_view() =~~= spec_dict().take(80)); }
    d.push((String::from_str("pawa"), String::from_str("力")));
    proof { assert(d.deep_view() =~~= spec_dict().take(81)); }
    d.push((String::from_str("brein"), String::from_str("脳")));
    proof { assert(d.deep_view() =~~= spec_dict().take(82)); }
    d.push((String::from_str("ful"), String::from_str("強い")));
    proof { assert(d.deep_view() =~~= spec_dict().take(83)); }
    d.push((String::from_str("les"), String::from_str("弱い")));
    proof { assert(d.deep_view() =~~= spec_dict().take(84)); }
    d.push((String::from_str("prev"), String::from_str("前の")));
    proof { assert(d.deep_view() =~~= spec_dict().take(85)); }
    d.push((String::from_str("forv"), String::from_str("次の")));
    proof { assert(d.deep_view() =~~= spec_dict().take(86)); }
    d.push((String::from_str("gu*d"), String::from_str("良い")));
    proof { assert(d.deep_view() =~~= spec_dict().take(87)); }
    d.push((String::from_str("ba*d"), String::from_str("悪い")));
    proof { assert(d.deep_view() =~~= spec_dict().take(88)); }
    d.push((String::from_str("lo*t"), String::from_str("多い")));
    proof { assert(d.deep_view() =~~= spec_dict().take(89)); }
    d.push((String::from_str("bi*t"), String::from_str("少ない")));
    proof { assert(d.deep_view() =~~= spec_dict().take(90)); }
    d.push((String::from_str("bes^"), String::from_str("全て")));
    proof { assert(d.deep_view() =~~= spec_dict().take(91)); }
    d.push((String::from_str("mond"), String::from_str("世界")));
    proof { assert(d.deep_view() =~~= spec_dict().take(92)); }
    d.push((String::from_str("batl"), String::from_str("戦い")));
    proof { assert(d.deep_view() =~~= spec_dict().take(93)); }
    d.push((String::from_str("wa-r"), String::from_str("争う")));
    proof { assert(d.deep_view() =~~= spec_dict().take(94)); }
    d.push((String::from_str("final"), String::from_str("最後")));
    proof { assert(d.deep_view() =~~= spec_dict().take(95)); }
    d.push((String::from_str("wiz"), String::from_str("共に")));
    proof { assert(d.deep_view() =~~= spec_dict().take(96)); }
    d.push((String::from_str("stand"), String::from_str("立つ")));
    proof { assert(d.deep_view() =~~= spec_dict().take(97)); }
    d.push((String::from_str("deci"), String::from_str("決定")));
    proof { assert(d.deep_view() =~~= spec_dict().take(98)); }
    d.push((String::from_str("frend"), String::from_str("友達")));
    proof { assert(d.deep_view() =~~= spec_dict().take(99)); }
    d.push((String::from_str("rela"), String::from_str("関係")));
    proof { assert(d.deep_view() =~~= spec_dict().take(100)); }
    d.push((String::from_str("emo-t"), String::from_str("心")));
    proof { assert(d.deep_view() =~~= spec_dict().take(101)); }
    d.push((String::from_str("bunt"), String::from_str("同盟")));
    proof { assert(d.deep_view() =~~= spec_dict().take(102)); }
    d.push((String::from_str("join"), String::from_str("参加")));
    proof { assert(d.deep_view() =~~= spec_dict().take(103)); }
    proof {
        assert(spec_dict().take(103) =~= spec_dict());
    }
    d
}

/// Looks `m` up in the dictionary; the first matching key wins.
pub fn lookup(m: &String) -> (r: Option<String>)
    ensures
        match r {
            Some(g) => lookup_from(spec_dict(), m@) == Some(g@),
            None => lookup_from(spec_dict(), m@) is None,
        },
{
    let d = dict();
    let mut i: usize = 0;
    proof {
        assert(spec_dict().skip(0) =~= spec_dict());
    }
    while i < d.len()
        invariant
            i <= d.len(),
            d.deep_view() == spec_dict(),
            lookup_from(spec_dict(), m@) == lookup_from(spec_dict().skip(i as int), m@),
        decreases d.len() - i,
    {
        proof {
            assert(spec_dict().skip(i as int)[0] == spec_dict()[i as int]);
            assert(spec_dict()[i as int] == d.deep_view()[i as int]);
        }
        if d[i].0 == *m {
            let g = d[i].1.clone();
            return Some(g);
        }
        proof {
            assert(spec_dict().skip(i as int).skip(1) =~= spec_dict().skip(i + 1));
        }
        i = i + 1;
    }
    proof {
        assert(spec_dict().skip(d.deep_view().len() as int) =~= Seq::<(
            Seq<char>,
            Seq<char>,
        )>::empty());
    }
    None
}

/// One dictionary morpheme.
#[derive(Clone, Debug, PartialEq)]
pub struct Vocabulary(pub String);

impl View for Vocabulary {
    type V = Seq<char>;

    open spec fn view(&self) -> Seq<char> {
        self.0@
    }
}

impl DeepView for Vocabulary {
    type V = Seq<char>;

    open spec fn deep_view(&self) -> Seq<char> {
        self.0@
    }
}

impl Vocabulary {
    /// Accepts `source` exactly when it is a dictionary morpheme.
    pub fn parse(source: &str) -> (r: Option<Vocabulary>)
        ensures
            match r {
                Some(v) => is_key(source@) && v@ == source@,
                None => !is_key(source@),
            },
    {
        let owned = source.to_owned();
        match lookup(&owned) {
            Some(_) => Some(Vocabulary(owned)),
            None => None,
        }
    }

    /// The morpheme's surface text.
    pub fn format(&self) -> (r: String)
        ensures
            r@ == self@,
    {
        self.0.clone()
    }

    /// The morpheme's gloss, or its own text when the dictionary lacks it.
    pub fn translate(&self) -> (r: String)
        ensures
            r@ == gloss(self@),
    {
        match lookup(&self.0) {
            Some(g) => g,
            None => self.0.clone(),
        }
    }
}

} // verus!