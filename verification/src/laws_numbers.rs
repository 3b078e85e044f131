//! What holds of numbers and their text.
use crate::number::{
    binary64_limit, classify, integer_text, lemma_integer_text_parses, NumberClass,
};
use vstd::arithmetic::power2::{lemma2_to64, lemma2_to64_rest, lemma_pow2_adds, pow2};
use vstd::prelude::*;

verus! {

/// The limit is what its description says: two to the power 1024, less two
/// to the power 970.
pub proof fn law_binary64_limit()
    ensures
        binary64_limit() == pow2(1024) - pow2(970),
{
    lemma2_to64();
    lemma2_to64_rest();
    assert(pow2(10) == 1024);
    assert(pow2(64) == 18446744073709551616);
    lemma_pow2_adds(64, 64);
    assert(pow2(128) == 340282366920938463463374607431768211456);
    lemma_pow2_adds(128, 128);
    assert(pow2(256) == 115792089237316195423570985008687907853269984665640564039457584007913129639936);
    lemma_pow2_adds(256, 256);
    assert(pow2(512) == 13407807929942597099574024998205846127479365820592393377723561443721764030073546976801874298166903427690031858186486050853753882811946569946433649006084096);
    lemma_pow2_adds(512, 512);
    assert(pow2(1024) == 179769313486231590772930519078902473361797697894230657273430081157732675805500963132708477322407536021120113879871393357658789768814416622492847430639474124377767893424865485276302219601246094119453082952085005768838150682342462881473913110540827237163350510684586298239947245938479716304835356329624224137216);
    lemma_pow2_adds(512, 256);
    assert(pow2(768) == 1552518092300708935148979488462502555256886017116696611139052038026050952686376886330878408828646477950487730697131073206171580044114814391444287275041181139204454976020849905550265285631598444825262999193716468750892846853816057856);
    lemma_pow2_adds(768, 128);
    assert(pow2(896) == 528294531135665246352339784916516606518847326036121522127960709026673902556724859474417255887657187894674394993257128678882347559502685537250538978462939576908386683999005084168731517676426441053024232908211188404148028292751561738838396898767036476489538580897737998336);
    lemma_pow2_adds(896, 64);
    assert(pow2(960) == 9745314011399999080353382387875188310876226857595007526867906457212948690766426102465615065882010259225304916231408668183459169865203094046577987296312653419531277699956473029870789655490053648352799593479218378873685597925394874945746363615468965612827738803104277547081828589991914110976);
    lemma_pow2_adds(960, 10);
    assert(pow2(970) == 9979201547673599058281863565184192830337256302177287707512736212186059459344820328924789827463178505446712234220962476219862189941967968303695858991424157101600028364755428382587688607221814935913266783722719619966654052275604351944444276342240220787535604534378780208211792476151720049639424);
}

/// Every signed 64-bit integer has a canonical text, and that text is
/// classified as the integer.
pub proof fn law_integer_text_is_integer(i: i64)
    ensures
        classify(integer_text(i as int)) == NumberClass::Integer(i),
{
    lemma_integer_text_parses(i);
}

} // verus!
